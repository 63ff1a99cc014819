//! The chunked payload pipeline: 4096-byte plaintext chunks, each sealed by
//! STREAM-BE32 at its position, the final one flagged as last.
use crate::crypto::{stream_decrypt, stream_encrypt, stream_seal};
use crate::error::{decrypts_to, EnvelopeError};
use vstd::prelude::*;
use vstd::slice::{slice_subrange, slice_to_vec};

verus! {

/// Plaintext bytes per chunk.
pub const CHUNK_LEN: usize = 4096;

/// Ciphertext bytes per full chunk: the chunk and its 16-byte tag.
pub const SEGMENT_LEN: usize = 4112;

/// Largest payload the 32-bit segment counter can number.
pub const MAX_PAYLOAD_LEN: u64 = 0xFFF_FFFF_F000;

/// The ciphertext of `pt` when its first chunk stands at segment `pos`.
pub open spec fn stream_ciphertext(key: Seq<u8>, nonce: Seq<u8>, pt: Seq<u8>, pos: nat) -> Seq<u8>
    decreases pt.len(),
{
    if pt.len() <= 4096 {
        stream_seal(key, nonce, pos as u32, true, pt)
    } else {
        stream_seal(key, nonce, pos as u32, false, pt.take(4096)) + stream_ciphertext(
            key,
            nonce,
            pt.skip(4096),
            pos + 1,
        )
    }
}

/// Every segment of `stream_ciphertext(key, nonce, pt, pos)` is its chunk plus a tag.
pub open spec fn segments_tagged(key: Seq<u8>, nonce: Seq<u8>, pt: Seq<u8>, pos: nat) -> bool
    decreases pt.len(),
{
    if pt.len() <= 4096 {
        stream_seal(key, nonce, pos as u32, true, pt).len() == pt.len() + 16
    } else {
        stream_seal(key, nonce, pos as u32, false, pt.take(4096)).len() == 4112
            && segments_tagged(key, nonce, pt.skip(4096), pos + 1)
    }
}

/// `pt` is what decrypting the segments of `ct`, the first at `pos`, yields:
/// every segment but the trailing one is 4112 bytes and opens to a full chunk,
/// and the trailing one (at most 4112 bytes) opens, flagged as last, to the rest.
pub open spec fn stream_opens(key: Seq<u8>, nonce: Seq<u8>, ct: Seq<u8>, pos: nat, pt: Seq<u8>) -> bool
    decreases ct.len(),
{
    if ct.len() <= 4112 {
        stream_seal(key, nonce, pos as u32, true, pt) == ct
    } else {
        pt.len() >= 4096 && stream_seal(key, nonce, pos as u32, false, pt.take(4096)) == ct.take(
            4112,
        ) && stream_opens(key, nonce, ct.skip(4112), pos + 1, pt.skip(4096))
    }
}

/// Length of the ciphertext of an `n`-byte payload.
pub open spec fn ciphertext_len(n: nat) -> nat
    decreases n,
{
    if n <= 4096 {
        n + 16
    } else {
        4112 + ciphertext_len((n - 4096) as nat)
    }
}

/// Payloads of whole chunks: `k` chunks take `k` segments, and the empty
/// payload still takes one tag.
pub proof fn chunk_boundary_len(k: nat)
    ensures
        ciphertext_len(4096 * k) == if k == 0 {
            16
        } else {
            4112 * k
        },
    decreases k,
{
    if k > 1 {
        assert(4096 * k - 4096 == 4096 * (k - 1) as nat) by (nonlinear_arith)
            requires
                k > 1,
        ;
        chunk_boundary_len((k - 1) as nat);
        assert(4112 + 4112 * (k - 1) == 4112 * k) by (nonlinear_arith);
    }
}

/// Each segment of the ciphertext adds exactly one tag to its chunk.
pub proof fn ciphertext_len_closed_form(n: nat)
    ensures
        ciphertext_len(n) == if n == 0 {
            16
        } else {
            n + 16 * (((n - 1) as nat) / 4096 + 1)
        },
    decreases n,
{
    if n > 4096 {
        ciphertext_len_closed_form((n - 4096) as nat);
        assert(((n - 1) as nat) / 4096 == ((n - 4097) as nat) / 4096 + 1) by (nonlinear_arith)
            requires
                n > 4096,
        ;
    } else if n > 0 {
        assert(((n - 1) as nat) / 4096 == 0) by (nonlinear_arith)
            requires
                0 < n <= 4096,
        ;
    }
}

/// How the pipeline treats the remaining `bytes_left` bytes of its input:
/// more than `full` of them make a full non-final unit, else they all make
/// the final one.
pub open spec fn step_spec(bytes_left: u64, full: u64) -> (u64, bool) {
    if bytes_left > full {
        (full, false)
    } else {
        (bytes_left, true)
    }
}

/// The next plaintext chunk to read while encrypting: its length and whether
/// it is the last one (which may be empty).
pub fn next_plain_chunk(bytes_left: u64) -> (r: (u64, bool))
    ensures
        r == step_spec(bytes_left, 4096),
{
    if bytes_left > 4096 {
        (4096, false)
    } else {
        (bytes_left, true)
    }
}

/// The next ciphertext segment to read while decrypting: its length and
/// whether it is the trailing one.
pub fn next_cipher_segment(bytes_left: u64) -> (r: (u64, bool))
    ensures
        r == step_spec(bytes_left, 4112),
{
    if bytes_left > 4112 {
        (4112, false)
    } else {
        (bytes_left, true)
    }
}

} // verus!

verus! {

/// The ciphertext of a payload whose segments all carry their tag is as long
/// as `ciphertext_len` says.
pub proof fn lemma_stream_ciphertext_len(key: Seq<u8>, nonce: Seq<u8>, pt: Seq<u8>, pos: nat)
    requires
        segments_tagged(key, nonce, pt, pos),
    ensures
        stream_ciphertext(key, nonce, pt, pos).len() == ciphertext_len(pt.len()),
        ciphertext_len(pt.len()) >= pt.len() + 16,
    decreases pt.len(),
{
    if pt.len() > 4096 {
        lemma_stream_ciphertext_len(key, nonce, pt.skip(4096), pos + 1);
    }
}

/// Decrypting what encryption produced gives the payload back: the
/// ciphertext of `pt` opens, segment by segment, to `pt`.
pub proof fn stream_round_trip(key: Seq<u8>, nonce: Seq<u8>, pt: Seq<u8>, pos: nat)
    requires
        segments_tagged(key, nonce, pt, pos),
    ensures
        stream_opens(key, nonce, stream_ciphertext(key, nonce, pt, pos), pos, pt),
    decreases pt.len(),
{
    if pt.len() > 4096 {
        let first = stream_seal(key, nonce, pos as u32, false, pt.take(4096));
        let rest = stream_ciphertext(key, nonce, pt.skip(4096), pos + 1);
        lemma_stream_ciphertext_len(key, nonce, pt.skip(4096), pos + 1);
        stream_round_trip(key, nonce, pt.skip(4096), pos + 1);
        assert((first + rest).take(4112) == first);
        assert((first + rest).skip(4112) == rest);
    }
}

/// Encrypts a whole payload: full chunks while more than one chunk is left,
/// then one final chunk of the rest (empty for an empty payload).
pub fn encrypt_payload(key: &[u8], nonce: &[u8], pt: &[u8]) -> (r: Vec<u8>)
    requires
        key@.len() == 32,
        nonce@.len() == 7,
        pt@.len() <= MAX_PAYLOAD_LEN,
    ensures
        r@ == stream_ciphertext(key@, nonce@, pt@, 0),
        segments_tagged(key@, nonce@, pt@, 0),
        r@.len() == ciphertext_len(pt@.len()),
{
    let mut out: Vec<u8> = Vec::new();
    let mut off: usize = 0;
    let mut pos: u32 = 0;
    assert(pt@.skip(0) == pt@);
    assert(out@ + pt@ == pt@);
    assert(out@ + stream_ciphertext(key@, nonce@, pt@, 0) == stream_ciphertext(key@, nonce@, pt@, 0));
    loop
        invariant
            off as int == 4096 * pos as int,
            off <= pt@.len(),
            pt@.len() <= MAX_PAYLOAD_LEN,
            key@.len() == 32,
            nonce@.len() == 7,
            out@ + stream_ciphertext(key@, nonce@, pt@.skip(off as int), pos as nat)
                == stream_ciphertext(key@, nonce@, pt@, 0),
            segments_tagged(key@, nonce@, pt@.skip(off as int), pos as nat) ==> segments_tagged(
                key@,
                nonce@,
                pt@,
                0,
            ),
            out@.len() + ciphertext_len((pt@.len() - off) as nat) == ciphertext_len(pt@.len()),
        decreases pt@.len() - off,
    {
        let rest = Ghost(pt@.skip(off as int));
        if pt.len() - off > CHUNK_LEN {
            let chunk = slice_subrange(pt, off, off + CHUNK_LEN);
            assert(chunk@ == rest@.take(4096));
            assert(rest@.skip(4096) == pt@.skip(off + 4096));
            assert(pos < 0xFFFF_FFFF) by (nonlinear_arith)
                requires
                    off as int == 4096 * pos as int,
                    off + 4096 < 0xFFF_FFFF_F000,
            ;
            let mut c = match stream_encrypt(key, nonce, pos, false, chunk) {
                Some(c) => c,
                None => {
                    proof {
                        assert(false);
                    }
                    Vec::new()
                },
            };
            out.append(&mut c);
            off = off + CHUNK_LEN;
            pos = pos + 1;
        } else {
            let chunk = slice_subrange(pt, off, pt.len());
            assert(chunk@ == rest@);
            let mut c = match stream_encrypt(key, nonce, pos, true, chunk) {
                Some(c) => c,
                None => {
                    proof {
                        assert(false);
                    }
                    Vec::new()
                },
            };
            out.append(&mut c);
            return out;
        }
    }
}

/// Decrypts a whole ciphertext: 4112-byte segments while more than one
/// segment is left, then the trailing segment, which must be flagged as last.
pub fn decrypt_payload(key: &[u8], nonce: &[u8], ct: &[u8]) -> (r: Result<Vec<u8>, EnvelopeError>)
    requires
        key@.len() == 32,
        nonce@.len() == 7,
    ensures
        r matches Ok(p) ==> stream_opens(key@, nonce@, ct@, 0, p@),
        r matches Err(e) ==> e == EnvelopeError::DecryptionFailed,
        forall|p: Seq<u8>| decrypts_to(r, p) <== p.len() <= MAX_PAYLOAD_LEN && #[trigger] stream_ciphertext(key@, nonce@, p, 0) == ct@ && segments_tagged(key@, nonce@, p, 0),
{
    let mut out: Vec<u8> = Vec::new();
    let mut off: usize = 0;
    let mut pos: u32 = 0;
    assert(ct@.skip(0) == ct@);
    assert forall|q: Seq<u8>| #[trigger] stream_opens(key@, nonce@, ct@.skip(0), 0, q) implies stream_opens(key@, nonce@, ct@, 0, out@ + q) by {
        assert(out@ + q == q);
    }
    assert forall|p: Seq<u8>| #[trigger] stream_ciphertext(key@, nonce@, p, 0) == ct@ implies out@ == p.take(0) && p.skip(0) == p by {
        assert(p.skip(0) == p);
    }
    loop
        invariant
            off as int == 4112 * pos as int,
            out@.len() == 4096 * pos as int,
            off <= ct@.len(),
            key@.len() == 32,
            nonce@.len() == 7,
            forall|q: Seq<u8>| #[trigger]
                stream_opens(key@, nonce@, ct@.skip(off as int), pos as nat, q) ==> stream_opens(
                    key@,
                    nonce@,
                    ct@,
                    0,
                    out@ + q,
                ),
            forall|p: Seq<u8>|
                p.len() <= MAX_PAYLOAD_LEN && #[trigger] stream_ciphertext(key@, nonce@, p, 0)
                    == ct@ && segments_tagged(key@, nonce@, p, 0) ==> p.len() >= out@.len()
                    && out@ == p.take(out@.len() as int) && stream_ciphertext(
                    key@,
                    nonce@,
                    p.skip(out@.len() as int),
                    pos as nat,
                ) == ct@.skip(off as int) && segments_tagged(
                    key@,
                    nonce@,
                    p.skip(out@.len() as int),
                    pos as nat,
                ),
        decreases ct@.len() - off,
    {
        let ghost seg_rest = ct@.skip(off as int);
        if ct.len() - off > SEGMENT_LEN {
            if pos == 0xFFFF_FFFF {
                proof {
                    assert forall|p: Seq<u8>|
                        p.len() <= MAX_PAYLOAD_LEN && #[trigger] stream_ciphertext(
                            key@,
                            nonce@,
                            p,
                            0,
                        ) == ct@ && segments_tagged(key@, nonce@, p, 0) implies false by {
                        let rest = p.skip(out@.len() as int);
                        lemma_stream_ciphertext_len(key@, nonce@, rest, pos as nat);
                        if rest.len() <= 4096 {
                        } else {
                            assert(p.len() > 4096 * 0x1_0000_0000) by (nonlinear_arith)
                                requires
                                    out@.len() == 4096 * pos as int,
                                    pos == 0xFFFF_FFFF,
                                    p.len() == out@.len() + rest.len(),
                                    rest.len() > 4096,
                            ;
                        }
                    }
                }
                return Err(EnvelopeError::DecryptionFailed);
            }
            let seg = slice_subrange(ct, off, off + SEGMENT_LEN);
            assert(seg@ == seg_rest.take(4112));
            assert(seg_rest.skip(4112) == ct@.skip(off + 4112));
            let d = stream_decrypt(key, nonce, pos, false, seg);
            match d {
                Some(mut d) => {
                    let ghost old_out = out@;
                    proof {
                        assert forall|q: Seq<u8>| #[trigger]
                            stream_opens(
                                key@,
                                nonce@,
                                ct@.skip(off + 4112),
                                pos as nat + 1,
                                q,
                            ) implies stream_opens(key@, nonce@, ct@, 0, old_out + (d@ + q)) by {
                            assert((d@ + q).take(4096) == d@);
                            assert((d@ + q).skip(4096) == q);
                            assert(stream_opens(key@, nonce@, seg_rest, pos as nat, d@ + q));
                            assert(old_out + (d@ + q) == (old_out + d@) + q);
                        }
                        assert forall|p: Seq<u8>|
                            p.len() <= MAX_PAYLOAD_LEN && #[trigger] stream_ciphertext(
                                key@,
                                nonce@,
                                p,
                                0,
                            ) == ct@ && segments_tagged(key@, nonce@, p, 0) implies p.len()
                            >= old_out.len() as int + 4096 && old_out + d@ == p.take(
                            old_out.len() as int + 4096,
                        ) && stream_ciphertext(
                            key@,
                            nonce@,
                            p.skip(old_out.len() as int + 4096),
                            pos as nat + 1,
                        ) == ct@.skip(off + 4112) && segments_tagged(
                            key@,
                            nonce@,
                            p.skip(old_out.len() as int + 4096),
                            pos as nat + 1,
                        ) by {
                            let rest = p.skip(old_out.len() as int);
                            lemma_stream_ciphertext_len(key@, nonce@, rest, pos as nat);
                            assert(rest.len() > 4096);
                            let first = stream_seal(key@, nonce@, pos, false, rest.take(4096));
                            assert(seg_rest == first + stream_ciphertext(
                                key@,
                                nonce@,
                                rest.skip(4096),
                                pos as nat + 1,
                            ));
                            assert(seg_rest.take(4112) == first);
                            assert(seg_rest.skip(4112) == stream_ciphertext(
                                key@,
                                nonce@,
                                rest.skip(4096),
                                pos as nat + 1,
                            ));
                            assert(d@ == rest.take(4096));
                            assert(rest.skip(4096) == p.skip(old_out.len() as int + 4096));
                            assert(old_out + d@ == p.take(old_out.len() as int + 4096));
                        }
                    }
                    let ghost d_val = d@;
                    let ghost old_off = off;
                    let ghost old_pos = pos;
                    out.append(&mut d);
                    off = off + SEGMENT_LEN;
                    pos = pos + 1;
                    proof {
                        assert(ct@.skip(off as int) == ct@.skip(old_off + 4112));
                        assert forall|q: Seq<u8>| #[trigger]
                            stream_opens(key@, nonce@, ct@.skip(off as int), pos as nat, q)
                                implies stream_opens(key@, nonce@, ct@, 0, out@ + q) by {
                            assert(stream_opens(key@, nonce@, ct@.skip(old_off + 4112), old_pos as nat + 1, q));
                            assert(stream_opens(key@, nonce@, ct@, 0, old_out + (d_val + q)));
                            assert(out@ == old_out + d_val);
                            assert(old_out + (d_val + q) == out@ + q);
                        }
                    }
                },
                None => {
                    proof {
                        assert forall|p: Seq<u8>|
                            p.len() <= MAX_PAYLOAD_LEN && #[trigger] stream_ciphertext(
                                key@,
                                nonce@,
                                p,
                                0,
                            ) == ct@ && segments_tagged(key@, nonce@, p, 0) implies false by {
                            let rest = p.skip(out@.len() as int);
                            lemma_stream_ciphertext_len(key@, nonce@, rest, pos as nat);
                            let first = stream_seal(key@, nonce@, pos, false, rest.take(4096));
                            assert(seg_rest.take(4112) == first);
                        }
                    }
                    return Err(EnvelopeError::DecryptionFailed);
                },
            }
        } else {
            let seg = slice_subrange(ct, off, ct.len());
            assert(seg@ == seg_rest);
            let d = stream_decrypt(key, nonce, pos, true, seg);
            match d {
                Some(mut d) => {
                    let ghost old_out = out@;
                    proof {
                        assert(stream_opens(key@, nonce@, seg_rest, pos as nat, d@));
                        assert forall|p: Seq<u8>|
                            p.len() <= MAX_PAYLOAD_LEN && #[trigger] stream_ciphertext(
                                key@,
                                nonce@,
                                p,
                                0,
                            ) == ct@ && segments_tagged(key@, nonce@, p, 0) implies old_out + d@
                            == p by {
                            let rest = p.skip(old_out.len() as int);
                            lemma_stream_ciphertext_len(key@, nonce@, rest, pos as nat);
                            if rest.len() > 4096 {
                                lemma_stream_ciphertext_len(
                                    key@,
                                    nonce@,
                                    rest.skip(4096),
                                    pos as nat + 1,
                                );
                            }
                            assert(d@ == rest);
                            assert(p == p.take(old_out.len() as int) + rest);
                        }
                    }
                    out.append(&mut d);
                    return Ok(out);
                },
                None => {
                    proof {
                        assert forall|p: Seq<u8>|
                            p.len() <= MAX_PAYLOAD_LEN && #[trigger] stream_ciphertext(
                                key@,
                                nonce@,
                                p,
                                0,
                            ) == ct@ && segments_tagged(key@, nonce@, p, 0) implies false by {
                            let rest = p.skip(out@.len() as int);
                            lemma_stream_ciphertext_len(key@, nonce@, rest, pos as nat);
                            if rest.len() > 4096 {
                                lemma_stream_ciphertext_len(
                                    key@,
                                    nonce@,
                                    rest.skip(4096),
                                    pos as nat + 1,
                                );
                            }
                        }
                    }
                    return Err(EnvelopeError::DecryptionFailed);
                },
            }
        }
    }
}

} // verus!

verus! {

/// Encrypts a payload one chunk at a time, for inputs read piece by piece.
/// `encrypt_last` consumes it, so nothing can follow the final chunk.
pub struct StreamEncryptor {
    key: Vec<u8>,
    nonce: Vec<u8>,
    position: u32,
}

impl StreamEncryptor {
    pub closed spec fn key(&self) -> Seq<u8> {
        self.key@
    }

    pub closed spec fn nonce(&self) -> Seq<u8> {
        self.nonce@
    }

    /// Position of the next segment.
    pub closed spec fn position(&self) -> u32 {
        self.position
    }

    pub closed spec fn wf(&self) -> bool {
        self.key@.len() == 32 && self.nonce@.len() == 7
    }

    pub fn new(key: &[u8], nonce: &[u8]) -> (r: StreamEncryptor)
        requires
            key@.len() == 32,
            nonce@.len() == 7,
        ensures
            r.wf(),
            r.key() == key@,
            r.nonce() == nonce@,
            r.position() == 0,
    {
        StreamEncryptor { key: slice_to_vec(key), nonce: slice_to_vec(nonce), position: 0 }
    }

    /// Seals a full chunk that is not the last one.
    pub fn encrypt_next(&mut self, chunk: &[u8]) -> (r: Result<Vec<u8>, EnvelopeError>)
        requires
            old(self).wf(),
            chunk@.len() == 4096,
        ensures
            final(self).wf(),
            final(self).key() == old(self).key(),
            final(self).nonce() == old(self).nonce(),
            old(self).position() < 0xFFFF_FFFF ==> (r matches Ok(c) && c@ == stream_seal(
                old(self).key(),
                old(self).nonce(),
                old(self).position(),
                false,
                chunk@,
            ) && c@.len() == 4112 && final(self).position() == old(self).position() + 1),
            old(self).position() == 0xFFFF_FFFF ==> r == Err::<Vec<u8>, EnvelopeError>(
                EnvelopeError::PayloadTooLarge,
            ) && final(self).position() == old(self).position(),
    {
        if self.position == 0xFFFF_FFFF {
            return Err(EnvelopeError::PayloadTooLarge);
        }
        match stream_encrypt(&self.key, &self.nonce, self.position, false, chunk) {
            Some(c) => {
                self.position = self.position + 1;
                Ok(c)
            },
            None => {
                proof {
                    assert(false);
                }
                Err(EnvelopeError::PayloadTooLarge)
            },
        }
    }

    /// Seals the final chunk (at most 4096 bytes, possibly none).
    pub fn encrypt_last(self, chunk: &[u8]) -> (r: Vec<u8>)
        requires
            self.wf(),
            chunk@.len() <= 4096,
        ensures
            r@ == stream_seal(self.key(), self.nonce(), self.position(), true, chunk@),
            r@.len() == chunk@.len() + 16,
    {
        match stream_encrypt(&self.key, &self.nonce, self.position, true, chunk) {
            Some(c) => c,
            None => {
                proof {
                    assert(false);
                }
                Vec::new()
            },
        }
    }
}

/// Decrypts a ciphertext one segment at a time. `decrypt_last` consumes it,
/// so nothing can follow the trailing segment.
pub struct StreamDecryptor {
    key: Vec<u8>,
    nonce: Vec<u8>,
    position: u32,
}

impl StreamDecryptor {
    pub closed spec fn key(&self) -> Seq<u8> {
        self.key@
    }

    pub closed spec fn nonce(&self) -> Seq<u8> {
        self.nonce@
    }

    /// Position of the next segment.
    pub closed spec fn position(&self) -> u32 {
        self.position
    }

    pub closed spec fn wf(&self) -> bool {
        self.key@.len() == 32 && self.nonce@.len() == 7
    }

    pub fn new(key: &[u8], nonce: &[u8]) -> (r: StreamDecryptor)
        requires
            key@.len() == 32,
            nonce@.len() == 7,
        ensures
            r.wf(),
            r.key() == key@,
            r.nonce() == nonce@,
            r.position() == 0,
    {
        StreamDecryptor { key: slice_to_vec(key), nonce: slice_to_vec(nonce), position: 0 }
    }

    /// Opens a full segment that is not the trailing one.
    pub fn decrypt_next(&mut self, segment: &[u8]) -> (r: Result<Vec<u8>, EnvelopeError>)
        requires
            old(self).wf(),
        ensures
            final(self).wf(),
            final(self).key() == old(self).key(),
            final(self).nonce() == old(self).nonce(),
            r matches Ok(p) ==> stream_seal(
                old(self).key(),
                old(self).nonce(),
                old(self).position(),
                false,
                p@,
            ) == segment@ && p@.len() + 16 == segment@.len() && final(self).position()
                == old(self).position() + 1,
            r matches Err(e) ==> e == EnvelopeError::DecryptionFailed && final(self).position()
                == old(self).position(),
            forall|p: Seq<u8>| decrypts_to(r, p) <== old(self).position() < 0xFFFF_FFFF && p.len() <= 4096 && #[trigger] stream_seal(old(self).key(), old(self).nonce(), old(self).position(), false, p) == segment@,
    {
        if self.position == 0xFFFF_FFFF {
            return Err(EnvelopeError::DecryptionFailed);
        }
        match stream_decrypt(&self.key, &self.nonce, self.position, false, segment) {
            Some(p) => {
                self.position = self.position + 1;
                Ok(p)
            },
            None => Err(EnvelopeError::DecryptionFailed),
        }
    }

    /// Opens the trailing segment, which must be flagged as last.
    pub fn decrypt_last(self, segment: &[u8]) -> (r: Result<Vec<u8>, EnvelopeError>)
        requires
            self.wf(),
        ensures
            r matches Ok(p) ==> stream_seal(self.key(), self.nonce(), self.position(), true, p@)
                == segment@,
            r matches Err(e) ==> e == EnvelopeError::DecryptionFailed,
            forall|p: Seq<u8>| decrypts_to(r, p) <== p.len() <= 4096 && #[trigger] stream_seal(self.key(), self.nonce(), self.position(), true, p) == segment@,
    {
        match stream_decrypt(&self.key, &self.nonce, self.position, true, segment) {
            Some(p) => Ok(p),
            None => Err(EnvelopeError::DecryptionFailed),
        }
    }
}

} // verus!
