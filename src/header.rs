//! The envelope header: the options that can unwrap the primary key, and the
//! stream nonce; its serialization and its length-prefixed framing.
use crate::codec::{
    decode_header, enc_bytes, fits_u64, header_fits, option_fits, enc_factors, enc_header, enc_option, enc_u64, header_valid, is_utf8,
    names_unique, option_valid, parse_bytes, parse_entries, parse_entry, parse_factor,
    parse_factors, parse_fixed, parse_header, parse_option, parse_u64, utf8_valid, FactorView,
    HeaderView, OptionView,
};
use crate::error::{decrypts_to, EnvelopeError};
use crate::factors::{registry_has, FactorRegistry};
use crate::keywrap::{concat_keys, create_option, keys_view, open_option, option_opens_to};
use crate::stream::{
    decrypt_payload, encrypt_payload, segments_tagged, stream_ciphertext, stream_opens,
    StreamDecryptor, MAX_PAYLOAD_LEN,
};
use vstd::bytes::{spec_u64_from_le_bytes, u64_from_le_bytes, u64_to_le_bytes};
use vstd::prelude::*;
use vstd::slice::{slice_subrange, slice_to_vec};

verus! {

/// Largest serialized header that is read back (16 MiB).
pub const MAX_HEADER_LEN: u64 = 0x100_0000;

/// A factor of an option: its name and its public data.
pub struct FactorRef {
    pub name: Vec<u8>,
    pub data: Vec<u8>,
}

impl View for FactorRef {
    type V = FactorView;

    open spec fn view(&self) -> FactorView {
        (self.name@, self.data@)
    }
}

/// What an option stores: the KDF salt, its factors in the order their keys
/// are concatenated, and the primary key sealed under the option's key.
pub struct OptionData {
    pub salt: Vec<u8>,
    pub factors: Vec<FactorRef>,
    pub primary_key_nonce: Vec<u8>,
    pub primary_key_ciphertext: Vec<u8>,
}

pub open spec fn factors_view(fs: Seq<FactorRef>) -> Seq<FactorView> {
    fs.map_values(|f: FactorRef| f@)
}

impl View for OptionData {
    type V = OptionView;

    open spec fn view(&self) -> OptionView {
        OptionView {
            salt: self.salt@,
            factors: factors_view(self.factors@),
            primary_key_nonce: self.primary_key_nonce@,
            primary_key_ciphertext: self.primary_key_ciphertext@,
        }
    }
}

/// An option under its user-given name (UTF-8 bytes).
pub struct NamedOption {
    pub name: Vec<u8>,
    pub data: OptionData,
}

impl View for NamedOption {
    type V = (Seq<u8>, OptionView);

    open spec fn view(&self) -> (Seq<u8>, OptionView) {
        (self.name@, self.data@)
    }
}

pub open spec fn options_view(os: Seq<NamedOption>) -> Seq<(Seq<u8>, OptionView)> {
    os.map_values(|o: NamedOption| o@)
}

/// The header at the start of every encrypted file.
pub struct Header {
    options: Vec<NamedOption>,
    nonce: Vec<u8>,
}

impl View for Header {
    type V = HeaderView;

    closed spec fn view(&self) -> HeaderView {
        HeaderView { options: options_view(self.options@), nonce: self.nonce@ }
    }
}

/// The length prefix and the serialized header, as written to a file.
pub open spec fn framed(h: HeaderView) -> Seq<u8> {
    enc_u64(enc_header(h).len()) + enc_header(h)
}

fn push_u64(out: &mut Vec<u8>, n: u64)
    ensures
        final(out)@ == old(out)@ + enc_u64(n as nat),
{
    let mut b = u64_to_le_bytes(n);
    out.append(&mut b);
}

fn push_raw(out: &mut Vec<u8>, b: &[u8])
    ensures
        final(out)@ == old(out)@ + b@,
{
    let mut v = slice_to_vec(b);
    out.append(&mut v);
}

fn push_bytes(out: &mut Vec<u8>, b: &[u8])
    ensures
        final(out)@ == old(out)@ + enc_bytes(b@),
        fits_u64(b@.len()),
{
    push_u64(out, b.len() as u64);
    push_raw(out, b);
    assert(old(out)@ + enc_u64(b@.len()) + b@ == old(out)@ + enc_bytes(b@));
}

fn push_option(out: &mut Vec<u8>, o: &OptionData)
    ensures
        final(out)@ == old(out)@ + enc_option(o@),
        option_fits(o@),
{
    let ghost start = out@;
    push_raw(out, o.salt.as_slice());
    push_u64(out, o.factors.len() as u64);
    let ghost mid = out@;
    let mut i: usize = 0;
    while i < o.factors.len()
        invariant
            i <= o.factors@.len(),
            out@ == mid + enc_factors(factors_view(o.factors@).take(i as int)),
            forall|k: int|
                0 <= k < i ==> fits_u64((#[trigger] factors_view(o.factors@)[k]).0.len())
                    && fits_u64(factors_view(o.factors@)[k].1.len()),
        decreases o.factors@.len() - i,
    {
        let ghost fs = factors_view(o.factors@);
        assert(fs.take(i + 1).drop_last() == fs.take(i as int));
        assert(fs.take(i + 1).last() == o.factors@[i as int]@);
        push_bytes(out, o.factors[i].name.as_slice());
        push_bytes(out, o.factors[i].data.as_slice());
        i = i + 1;
    }
    assert(factors_view(o.factors@).take(i as int) == factors_view(o.factors@));
    push_raw(out, o.primary_key_nonce.as_slice());
    push_bytes(out, o.primary_key_ciphertext.as_slice());
}

/// Whether two byte strings are equal.
pub(crate) fn bytes_eq(a: &[u8], b: &[u8]) -> (r: bool)
    ensures
        r == (a@ == b@),
{
    if a.len() != b.len() {
        return false;
    }
    let mut i: usize = 0;
    while i < a.len()
        invariant
            a@.len() == b@.len(),
            i <= a@.len(),
            forall|j: int| 0 <= j < i ==> a@[j] == b@[j],
        decreases a@.len() - i,
    {
        if a[i] != b[i] {
            return false;
        }
        i = i + 1;
    }
    assert(a@ == b@);
    true
}

fn read_u64(b: &[u8], p: usize) -> (r: Option<(u64, usize)>)
    ensures
        r matches Some((n, q)) ==> parse_u64(b@, p as int) == Some((n as nat, q as int)) && q
            <= b@.len(),
        r is None ==> parse_u64(b@, p as int) is None,
{
    if p <= b.len() && b.len() - p >= 8 {
        let n = u64_from_le_bytes(slice_subrange(b, p, p + 8));
        Some((n, p + 8))
    } else {
        None
    }
}

fn read_fixed(b: &[u8], p: usize, n: u64) -> (r: Option<(Vec<u8>, usize)>)
    ensures
        r matches Some((v, q)) ==> parse_fixed(b@, p as int, n as nat) == Some((v@, q as int))
            && q <= b@.len(),
        r is None ==> parse_fixed(b@, p as int, n as nat) is None,
{
    if p <= b.len() && (b.len() - p) as u64 >= n {
        let e = p + n as usize;
        Some((slice_to_vec(slice_subrange(b, p, e)), e))
    } else {
        None
    }
}

fn read_bytes(b: &[u8], p: usize) -> (r: Option<(Vec<u8>, usize)>)
    ensures
        r matches Some((v, q)) ==> parse_bytes(b@, p as int) == Some((v@, q as int)) && q
            <= b@.len(),
        r is None ==> parse_bytes(b@, p as int) is None,
{
    match read_u64(b, p) {
        Some((n, q)) => read_fixed(b, q, n),
        None => None,
    }
}

fn read_factors(b: &[u8], p: usize, count: u64) -> (r: Option<(Vec<FactorRef>, usize)>)
    requires
        p <= b@.len(),
    ensures
        r matches Some((v, q)) ==> parse_factors(b@, p as int, count as nat) == Some(
            (factors_view(v@), q as int),
        ) && q <= b@.len(),
        r is None ==> parse_factors(b@, p as int, count as nat) is None,
{
    let mut out: Vec<FactorRef> = Vec::new();
    let mut pos: usize = p;
    let mut i: u64 = 0;
    assert(factors_view(out@) == Seq::<FactorView>::empty());
    while i < count
        invariant
            i <= count,
            pos <= b@.len(),
            parse_factors(b@, p as int, i as nat) == Some((factors_view(out@), pos as int)),
        decreases count - i,
    {
        let name = read_bytes(b, pos);
        match name {
            Some((name, q)) => {
                let data = read_bytes(b, q);
                match data {
                    Some((data, q2)) => {
                        let ghost old_view = factors_view(out@);
                        out.push(FactorRef { name, data });
                        assert(factors_view(out@) == old_view.push(out@.last()@));
                        pos = q2;
                        i = i + 1;
                    },
                    None => {
                        proof {
                            lemma_parse_factors_stops(b@, p as int, i as nat, count as nat);
                        }
                        return None;
                    },
                }
            },
            None => {
                proof {
                    lemma_parse_factors_stops(b@, p as int, i as nat, count as nat);
                }
                return None;
            },
        }
    }
    Some((out, pos))
}

proof fn lemma_parse_factors_stops(b: Seq<u8>, p: int, i: nat, count: nat)
    requires
        i < count,
        parse_factors(b, p, i) matches Some((fs, q)) && parse_factor(b, q) is None,
    ensures
        parse_factors(b, p, count) is None,
    decreases count,
{
    if count > i + 1 {
        lemma_parse_factors_stops(b, p, i, (count - 1) as nat);
    }
}

fn read_option(b: &[u8], p: usize) -> (r: Option<(OptionData, usize)>)
    requires
        p <= b@.len(),
    ensures
        r matches Some((o, q)) ==> parse_option(b@, p as int) == Some((o@, q as int)) && q
            <= b@.len(),
        r is None ==> parse_option(b@, p as int) is None,
{
    let (salt, at1) = match read_fixed(b, p, 32) {
        Some(x) => x,
        None => return None,
    };
    let (count, at2) = match read_u64(b, at1) {
        Some(x) => x,
        None => return None,
    };
    let (factors, at3) = match read_factors(b, at2, count) {
        Some(x) => x,
        None => return None,
    };
    let (primary_key_nonce, at4) = match read_fixed(b, at3, 12) {
        Some(x) => x,
        None => return None,
    };
    let (primary_key_ciphertext, at5) = match read_bytes(b, at4) {
        Some(x) => x,
        None => return None,
    };
    Some((OptionData { salt, factors, primary_key_nonce, primary_key_ciphertext }, at5))
}

fn read_entries(b: &[u8], p: usize, count: u64) -> (r: Option<(Vec<NamedOption>, usize)>)
    requires
        p <= b@.len(),
    ensures
        r matches Some((v, q)) ==> parse_entries(b@, p as int, count as nat) == Some(
            (options_view(v@), q as int),
        ) && q <= b@.len(),
        r is None ==> parse_entries(b@, p as int, count as nat) is None,
{
    let mut out: Vec<NamedOption> = Vec::new();
    let mut pos: usize = p;
    let mut i: u64 = 0;
    assert(options_view(out@) == Seq::<(Seq<u8>, OptionView)>::empty());
    while i < count
        invariant
            i <= count,
            pos <= b@.len(),
            parse_entries(b@, p as int, i as nat) == Some((options_view(out@), pos as int)),
        decreases count - i,
    {
        match read_bytes(b, pos) {
            Some((name, q)) => match read_option(b, q) {
                Some((data, q2)) => {
                    let ghost old_view = options_view(out@);
                    out.push(NamedOption { name, data });
                    assert(options_view(out@) == old_view.push(out@.last()@));
                    pos = q2;
                    i = i + 1;
                },
                None => {
                    proof {
                        lemma_parse_entries_stops(b@, p as int, i as nat, count as nat);
                    }
                    return None;
                },
            },
            None => {
                proof {
                    lemma_parse_entries_stops(b@, p as int, i as nat, count as nat);
                }
                return None;
            },
        }
    }
    Some((out, pos))
}

proof fn lemma_parse_entries_stops(b: Seq<u8>, p: int, i: nat, count: nat)
    requires
        i < count,
        parse_entries(b, p, i) matches Some((es, q)) && parse_entry(b, q) is None,
    ensures
        parse_entries(b, p, count) is None,
    decreases count,
{
    if count > i + 1 {
        lemma_parse_entries_stops(b, p, i, (count - 1) as nat);
    }
}

/// Whether some two of the options share a name.
fn has_repeated_name(options: &Vec<NamedOption>) -> (r: bool)
    ensures
        r == !names_unique(options_view(options@)),
{
    let ghost v = options_view(options@);
    let mut i: usize = 0;
    while i < options.len()
        invariant
            i <= options@.len(),
            v == options_view(options@),
            forall|a: int, c: int| 0 <= a < c < options@.len() && a < i ==> #[trigger] v[a].0
                != #[trigger] v[c].0,
        decreases options@.len() - i,
    {
        let mut j: usize = i + 1;
        while j < options.len()
            invariant
                i < j <= options@.len(),
                i < options@.len(),
                v == options_view(options@),
                forall|a: int, c: int| 0 <= a < c < options@.len() && a < i ==> #[trigger] v[a].0
                    != #[trigger] v[c].0,
                forall|c: int| i < c < j ==> v[i as int].0 != #[trigger] v[c].0,
            decreases options@.len() - j,
        {
            if bytes_eq(options[i].name.as_slice(), options[j].name.as_slice()) {
                assert(v[i as int].0 == v[j as int].0);
                return true;
            }
            j = j + 1;
        }
        i = i + 1;
    }
    false
}

/// Whether the option's salt and nonce have the format's sizes and its
/// factor names are UTF-8.
fn option_valid_ok(o: &OptionData) -> (r: bool)
    ensures
        r == option_valid(o@),
{
    if o.salt.len() != 32 || o.primary_key_nonce.len() != 12 {
        return false;
    }
    let ghost fs = factors_view(o.factors@);
    let mut i: usize = 0;
    while i < o.factors.len()
        invariant
            i <= o.factors@.len(),
            fs == factors_view(o.factors@),
            forall|k: int| 0 <= k < i ==> utf8_valid((#[trigger] fs[k]).0),
        decreases o.factors@.len() - i,
    {
        assert(fs[i as int] == o.factors@[i as int]@);
        if !is_utf8(o.factors[i].name.as_slice()) {
            assert(!utf8_valid(o@.factors[i as int].0));
            return false;
        }
        i = i + 1;
    }
    true
}

impl Header {
    /// Builds a header from named options and the 7-byte stream nonce, in the
    /// order given (which is the order in which they are written).
    pub fn from_options(options: Vec<NamedOption>, nonce: Vec<u8>) -> (r: Result<Header, EnvelopeError>)
        ensures
            r matches Ok(h) ==> h@ == (HeaderView { options: options_view(options@), nonce: nonce@ }),
            r is Ok <==> header_valid(HeaderView { options: options_view(options@), nonce: nonce@ })
                && forall|i: int| 0 <= i < options@.len() ==> (#[trigger] options@[i]).name@.len()
                > 0 && options@[i].data.factors@.len() > 0,
            r matches Err(e) ==> e == EnvelopeError::InvalidConfiguration,
    {
        let ghost hv = HeaderView { options: options_view(options@), nonce: nonce@ };
        if nonce.len() != 7 || options.len() == 0 || has_repeated_name(&options) {
            return Err(EnvelopeError::InvalidConfiguration);
        }
        let mut i: usize = 0;
        while i < options.len()
            invariant
                i <= options@.len(),
                hv == (HeaderView { options: options_view(options@), nonce: nonce@ }),
                forall|k: int|
                    0 <= k < i ==> (#[trigger] options@[k]).name@.len() > 0
                        && options@[k].data.factors@.len() > 0 && option_valid(options@[k].data@)
                        && utf8_valid(options@[k].name@),
            decreases options@.len() - i,
        {
            if options[i].name.len() == 0 || options[i].data.factors.len() == 0 || !option_valid_ok(
                &options[i].data,
            ) || !is_utf8(options[i].name.as_slice()) {
                proof {
                    assert(hv.options[i as int] == options@[i as int]@);
                }
                return Err(EnvelopeError::InvalidConfiguration);
            }
            i = i + 1;
        }
        proof {
            assert forall|k: int| 0 <= k < hv.options.len() implies option_valid(
                (#[trigger] hv.options[k]).1,
            ) && utf8_valid(hv.options[k].0) by {
                assert(hv.options[k] == options@[k]@);
            }
        }
        Ok(Header { options, nonce })
    }

    /// The serialized header, without its length prefix.
    pub fn serialize(&self) -> (r: Vec<u8>)
        ensures
            r@ == enc_header(self@),
            header_fits(self@),
            fits_u64(enc_header(self@).len()),
    {
        let mut out: Vec<u8> = Vec::new();
        push_u64(&mut out, self.options.len() as u64);
        let ghost start = out@;
        let ghost es = options_view(self.options@);
        let mut i: usize = 0;
        while i < self.options.len()
            invariant
                i <= self.options@.len(),
                es == options_view(self.options@),
                out@ == start + crate::codec::enc_entries(es.take(i as int)),
                forall|k: int|
                    0 <= k < i ==> fits_u64((#[trigger] es[k]).0.len()) && option_fits(es[k].1),
            decreases self.options@.len() - i,
        {
            assert(es.take(i + 1).drop_last() == es.take(i as int));
            assert(es.take(i + 1).last() == self.options@[i as int]@);
            push_bytes(&mut out, self.options[i].name.as_slice());
            push_option(&mut out, &self.options[i].data);
            i = i + 1;
        }
        assert(es.take(i as int) == es);
        push_raw(&mut out, self.nonce.as_slice());
        // A vector's length is a `usize`, so the serialized length fits the
        // 64-bit prefix.
        let n = out.len();
        assert(n as nat == enc_header(self@).len());
        out
    }

    /// The header as written to a file: its serialized length as a
    /// little-endian `u64`, then the serialized header.
    pub fn to_bytes(&self) -> (r: Vec<u8>)
        ensures
            r@ == framed(self@),
    {
        let body = self.serialize();
        let mut out: Vec<u8> = Vec::new();
        push_u64(&mut out, body.len() as u64);
        push_raw(&mut out, body.as_slice());
        out
    }

    /// Decodes a serialized header (the bytes after the length prefix).
    pub fn from_bytes(b: &[u8]) -> (r: Result<Header, EnvelopeError>)
        ensures
            r matches Ok(h) ==> decode_header(b@) == Some(h@),
            r is Err ==> decode_header(b@) is None,
            r matches Err(e) ==> e == EnvelopeError::HeaderMalformed,
    {
        let (count, at1) = match read_u64(b, 0) {
            Some(x) => x,
            None => return Err(EnvelopeError::HeaderMalformed),
        };
        let (options, at2) = match read_entries(b, at1, count) {
            Some(x) => x,
            None => return Err(EnvelopeError::HeaderMalformed),
        };
        let (nonce, at3) = match read_fixed(b, at2, 7) {
            Some(x) => x,
            None => return Err(EnvelopeError::HeaderMalformed),
        };
        if at3 != b.len() || options.len() == 0 || has_repeated_name(&options) {
            return Err(EnvelopeError::HeaderMalformed);
        }
        let ghost hv = HeaderView { options: options_view(options@), nonce: nonce@ };
        assert(parse_header(b@) == Some((hv, at3 as int)));
        let mut i: usize = 0;
        while i < options.len()
            invariant
                i <= options@.len(),
                hv == (HeaderView { options: options_view(options@), nonce: nonce@ }),
                parse_header(b@) == Some((hv, b@.len() as int)),
                forall|k: int|
                    0 <= k < i ==> option_valid((#[trigger] options@[k]).data@) && utf8_valid(
                        options@[k].name@,
                    ),
            decreases options@.len() - i,
        {
            if !option_valid_ok(&options[i].data) || !is_utf8(options[i].name.as_slice()) {
                proof {
                    assert(hv.options[i as int] == options@[i as int]@);
                }
                return Err(EnvelopeError::HeaderMalformed);
            }
            i = i + 1;
        }
        proof {
            assert forall|k: int| 0 <= k < hv.options.len() implies option_valid(
                (#[trigger] hv.options[k]).1,
            ) && utf8_valid(hv.options[k].0) by {
                assert(hv.options[k] == options@[k]@);
            }
        }
        Ok(Header { options, nonce })
    }

    /// The length of the serialized header that follows an 8-byte prefix, or
    /// `HeaderMalformed` when it is over `MAX_HEADER_LEN`.
    pub fn header_len(prefix: &[u8]) -> (r: Result<usize, EnvelopeError>)
        requires
            prefix@.len() == 8,
        ensures
            spec_u64_from_le_bytes(prefix@) <= MAX_HEADER_LEN ==> r == Ok::<usize, EnvelopeError>(
                spec_u64_from_le_bytes(prefix@) as usize,
            ),
            spec_u64_from_le_bytes(prefix@) > MAX_HEADER_LEN ==> r == Err::<usize, EnvelopeError>(
                EnvelopeError::HeaderMalformed,
            ),
    {
        let n = u64_from_le_bytes(prefix);
        if n > MAX_HEADER_LEN {
            Err(EnvelopeError::HeaderMalformed)
        } else {
            Ok(n as usize)
        }
    }
}

/// An option to create: its name, its factors and their keys, in order.
pub struct OptionRequest {
    pub name: Vec<u8>,
    pub factors: Vec<FactorRef>,
    pub keys: Vec<Vec<u8>>,
}

/// The request can become an option: a non-empty UTF-8 name, at least one
/// factor, UTF-8 factor names, and joined keys within Argon2's limit.
pub open spec fn request_ok(r: OptionRequest) -> bool {
    &&& r.name@.len() > 0
    &&& utf8_valid(r.name@)
    &&& r.factors@.len() > 0
    &&& forall|j: int| 0 <= j < r.factors@.len() ==> utf8_valid((#[trigger] r.factors@[j]).name@)
    &&& concat_keys(keys_view(r.keys@)).len() <= 0xFFFF_FFFF
}

/// The requests can become a header: at least one, each valid, no two with
/// the same name, and a 7-byte nonce.
pub open spec fn requests_ok(rs: Seq<OptionRequest>, nonce: Seq<u8>) -> bool {
    &&& nonce.len() == 7
    &&& rs.len() >= 1
    &&& forall|i: int| 0 <= i < rs.len() ==> request_ok(#[trigger] rs[i])
    &&& forall|i: int, j: int| 0 <= i < j < rs.len() ==> (#[trigger] rs[i]).name@ != (#[trigger] rs[j]).name@
}

/// Option `i` of `h` is request `r` sealing `pk`.
pub open spec fn option_from_request(h: HeaderView, i: int, r: OptionRequest, pk: Seq<u8>) -> bool {
    &&& h.options[i].0 == r.name@
    &&& h.options[i].1.factors == factors_view(r.factors@)
    &&& h.options[i].1.salt.len() == 32
    &&& h.options[i].1.primary_key_nonce.len() == 12
    &&& h.options[i].1.primary_key_ciphertext.len() == 48
    &&& option_opens_to(h.options[i].1, keys_view(r.keys@), pk)
}

fn request_valid(r: &OptionRequest) -> (b: bool)
    ensures
        b == request_ok(*r),
{
    if r.name.len() == 0 || !is_utf8(r.name.as_slice()) || r.factors.len() == 0 {
        return false;
    }
    let mut j: usize = 0;
    while j < r.factors.len()
        invariant
            j <= r.factors@.len(),
            forall|k: int| 0 <= k < j ==> utf8_valid((#[trigger] r.factors@[k]).name@),
        decreases r.factors@.len() - j,
    {
        if !is_utf8(r.factors[j].name.as_slice()) {
            return false;
        }
        j = j + 1;
    }
    crate::keywrap::concat_factor_keys(&r.keys).len() <= 0xFFFF_FFFF
}

fn requests_valid(rs: &Vec<OptionRequest>, nonce: &Vec<u8>) -> (b: bool)
    ensures
        b == requests_ok(rs@, nonce@),
{
    if nonce.len() != 7 || rs.len() == 0 {
        return false;
    }
    let mut i: usize = 0;
    while i < rs.len()
        invariant
            i <= rs@.len(),
            forall|a: int| 0 <= a < i ==> request_ok(#[trigger] rs@[a]),
            forall|a: int, c: int|
                0 <= a < c < rs@.len() && a < i ==> (#[trigger] rs@[a]).name@ != (#[trigger] rs@[c]).name@,
        decreases rs@.len() - i,
    {
        if !request_valid(&rs[i]) {
            return false;
        }
        let mut j: usize = i + 1;
        while j < rs.len()
            invariant
                i < j <= rs@.len(),
                forall|a: int, c: int|
                    0 <= a < c < rs@.len() && a < i ==> (#[trigger] rs@[a]).name@
                        != (#[trigger] rs@[c]).name@,
                forall|c: int| i < c < j ==> rs@[i as int].name@ != (#[trigger] rs@[c]).name@,
            decreases rs@.len() - j,
        {
            if bytes_eq(rs[i].name.as_slice(), rs[j].name.as_slice()) {
                return false;
            }
            j = j + 1;
        }
        i = i + 1;
    }
    true
}

impl Header {
    /// Creates a header whose every option seals the one `primary_key`, from
    /// the requests in order and the 7-byte stream nonce. Fails with
    /// `InvalidConfiguration` exactly when the requests cannot make a header,
    /// and otherwise with `IoError` only if the random number generator fails.
    pub fn new(primary_key: &[u8], nonce: Vec<u8>, requests: Vec<OptionRequest>) -> (r: Result<Header, EnvelopeError>)
        requires
            primary_key@.len() == 32,
        ensures
            r matches Ok(h) ==> header_valid(h@) && h@.nonce == nonce@ && h@.options.len()
                == requests@.len() && forall|i: int|
                0 <= i < requests@.len() ==> option_from_request(h@, i, #[trigger] requests@[i], primary_key@),
            (r == Err::<Header, EnvelopeError>(EnvelopeError::InvalidConfiguration)) == !requests_ok(
                requests@,
                nonce@,
            ),
            r matches Err(e) ==> e == EnvelopeError::InvalidConfiguration || e == EnvelopeError::IoError,
    {
        if !requests_valid(&requests, &nonce) {
            return Err(EnvelopeError::InvalidConfiguration);
        }
        let ghost rs = requests@;
        let mut options: Vec<NamedOption> = Vec::new();
        let mut i: usize = 0;
        let mut pending = requests;
        let total = pending.len();
        while pending.len() > 0
            invariant
                i <= rs.len(),
                pending@ == rs.skip(i as int),
                rs.len() == total,
                rs == requests@,
                requests_ok(rs, nonce@),
                primary_key@.len() == 32,
                options@.len() == i,
                forall|k: int|
                    0 <= k < i ==> (#[trigger] options@[k]).name@ == rs[k].name@ && option_valid(
                        options@[k].data@,
                    ) && options@[k].data.factors@.len() > 0 && utf8_valid(options@[k].name@)
                        && options@[k].data@.factors == factors_view(rs[k].factors@)
                        && options@[k].data@.primary_key_ciphertext.len() == 48 && option_opens_to(
                        options@[k].data@,
                        keys_view(rs[k].keys@),
                        primary_key@,
                    ),
            decreases pending@.len(),
        {
            let req = pending.remove(0);
            assert(req == rs[i as int]);
            assert(pending@ == rs.skip(i + 1));
            assert(request_ok(req));
            let data = match create_option(primary_key, req.factors, &req.keys) {
                Ok(d) => d,
                Err(_) => return Err(EnvelopeError::IoError),
            };
            proof {
                assert forall|j: int| 0 <= j < data@.factors.len() implies utf8_valid(
                    (#[trigger] data@.factors[j]).0,
                ) by {
                    assert(data@.factors[j] == req.factors@[j]@);
                }
            }
            options.push(NamedOption { name: req.name, data });
            i = i + 1;
        }
        assert(i == rs.len()) by {
            assert(rs.skip(i as int).len() == 0);
        }
        let ghost ov = options_view(options@);
        proof {
            assert forall|a: int, c: int| 0 <= a < c < ov.len() implies #[trigger] ov[a].0
                != #[trigger] ov[c].0 by {
                assert(ov[a].0 == rs[a].name@);
                assert(ov[c].0 == rs[c].name@);
            }
            assert forall|k: int| 0 <= k < ov.len() implies option_valid((#[trigger] ov[k]).1)
                && utf8_valid(ov[k].0) by {
                assert(ov[k] == options@[k]@);
            }
        }
        let h = Header { options, nonce };
        proof {
            assert forall|k: int| 0 <= k < rs.len() implies option_from_request(
                h@,
                k,
                #[trigger] rs[k],
                primary_key@,
            ) by {
                assert(h@.options[k] == h.options@[k]@);
            }
        }
        Ok(h)
    }
}

/// The registry holds every factor of `fs`.
pub open spec fn all_registered(reg: Seq<crate::factors::FactorKind>, fs: Seq<FactorView>) -> bool {
    forall|j: int| 0 <= j < fs.len() ==> registry_has(reg, (#[trigger] fs[j]).0)
}

/// `r` is a decryptor keyed by `pk`.
pub open spec fn decryptor_for(r: Result<StreamDecryptor, EnvelopeError>, pk: Seq<u8>) -> bool {
    r matches Ok(d) && d.key() == pk
}

/// The first factor of `fs` that the registry lacks is named `name`.
pub open spec fn first_unknown(reg: Seq<crate::factors::FactorKind>, fs: Seq<FactorView>, name: Seq<u8>) -> bool {
    exists|j: int|
        0 <= j < fs.len() && (#[trigger] fs[j]).0 == name && !registry_has(reg, name) && forall|
            k: int,
        | 0 <= k < j ==> registry_has(reg, (#[trigger] fs[k]).0)
}

impl Header {
    /// The number of options.
    pub fn option_count(&self) -> (r: usize)
        ensures
            r == self@.options.len(),
    {
        self.options.len()
    }

    /// The option at index `i`, in stored order.
    pub fn option(&self, i: usize) -> (r: &NamedOption)
        requires
            i < self@.options.len(),
        ensures
            r@ == self@.options[i as int],
    {
        &self.options[i]
    }

    /// The stream nonce.
    pub fn nonce(&self) -> (r: &[u8])
        ensures
            r@ == self@.nonce,
    {
        self.nonce.as_slice()
    }

    /// Checks, before any factor is asked for its key, that the registry
    /// holds every factor of option `i`; otherwise names the first missing one.
    pub fn check_factors(&self, i: usize, registry: &FactorRegistry) -> (r: Result<(), EnvelopeError>)
        requires
            i < self@.options.len(),
        ensures
            r is Ok <==> all_registered(registry@, self@.options[i as int].1.factors),
            r matches Err(e) ==> e matches EnvelopeError::UnknownFactor(n) && first_unknown(
                registry@,
                self@.options[i as int].1.factors,
                n@,
            ),
    {
        let o = &self.options[i].data;
        let ghost fs = self@.options[i as int].1.factors;
        assert(fs == factors_view(o.factors@));
        let mut j: usize = 0;
        while j < o.factors.len()
            invariant
                j <= o.factors@.len(),
                i < self@.options.len(),
                fs == self@.options[i as int].1.factors,
                fs == factors_view(o.factors@),
                forall|k: int| 0 <= k < j ==> registry_has(registry@, (#[trigger] fs[k]).0),
            decreases o.factors@.len() - j,
        {
            let name = o.factors[j].name.as_slice();
            assert(fs[j as int].0 == name@);
            match registry.lookup(name) {
                Some(_) => {},
                None => {
                    let missing = vstd::slice::slice_to_vec(name);
                    proof {
                        assert(!registry_has(registry@, name@));
                        assert(fs == self@.options[i as int].1.factors);
                        assert(fs[j as int].0 == missing@);
                        assert(first_unknown(registry@, fs, missing@));
                        assert(!registry_has(registry@, (fs[j as int]).0));
                    }
                    return Err(EnvelopeError::UnknownFactor(missing));
                },
            }
            j = j + 1;
        }
        Ok(())
    }

    /// Unwraps the primary key from option `i` with its factors' keys, in the
    /// option's order.
    pub fn unwrap_primary_key(&self, i: usize, keys: &Vec<Vec<u8>>) -> (r: Result<Vec<u8>, EnvelopeError>)
        requires
            header_valid(self@),
            i < self@.options.len(),
        ensures
            r matches Ok(pk) ==> pk@.len() == 32 && option_opens_to(
                self@.options[i as int].1,
                keys_view(keys@),
                pk@,
            ),
            r matches Err(e) ==> e == EnvelopeError::DecryptionFailed,
            forall|pk: Seq<u8>| decrypts_to(r, pk) <== pk.len() == 32 && concat_keys(keys_view(keys@)).len() <= 0xFFFF_FFFF && #[trigger] option_opens_to(self@.options[i as int].1, keys_view(keys@), pk),
    {
        assert(option_valid(self@.options[i as int].1));
        open_option(&self.options[i].data, keys)
    }

    /// A stream decryptor for the payload through option `i`: every factor of
    /// the option must be in the registry (else the first missing one is
    /// named), and `keys` are the factors' keys in the option's order.
    pub fn to_decryptor(&self, i: usize, registry: &FactorRegistry, keys: &Vec<Vec<u8>>) -> (r: Result<
        StreamDecryptor,
        EnvelopeError,
    >)
        requires
            header_valid(self@),
            i < self@.options.len(),
        ensures
            r matches Ok(d) ==> d.wf() && d.position() == 0 && d.nonce() == self@.nonce
                && d.key().len() == 32 && option_opens_to(
                self@.options[i as int].1,
                keys_view(keys@),
                d.key(),
            ),
            r matches Err(EnvelopeError::UnknownFactor(n)) ==> first_unknown(
                registry@,
                self@.options[i as int].1.factors,
                n@,
            ),
            r matches Err(e) ==> e == EnvelopeError::DecryptionFailed || e is UnknownFactor,
            all_registered(registry@, self@.options[i as int].1.factors) ==> !(r matches Err(
                EnvelopeError::UnknownFactor(_),
            )),
            !all_registered(registry@, self@.options[i as int].1.factors) ==> (r matches Err(
                EnvelopeError::UnknownFactor(_),
            )),
            forall|pk: Seq<u8>| decryptor_for(r, pk) <== all_registered(registry@, self@.options[i as int].1.factors) && pk.len() == 32 && concat_keys(keys_view(keys@)).len() <= 0xFFFF_FFFF && #[trigger] option_opens_to(self@.options[i as int].1, keys_view(keys@), pk),
    {
        self.check_factors(i, registry)?;
        let pk = self.unwrap_primary_key(i, keys)?;
        Ok(StreamDecryptor::new(pk.as_slice(), self.nonce.as_slice()))
    }

    /// Decrypts a payload (the bytes after the header) through option `i`.
    /// Whichever option is satisfied, the payload that was sealed under the
    /// header's primary key comes back.
    pub fn open_payload(&self, i: usize, keys: &Vec<Vec<u8>>, ct: &[u8]) -> (r: Result<Vec<u8>, EnvelopeError>)
        requires
            header_valid(self@),
            i < self@.options.len(),
        ensures
            r matches Ok(p) ==> exists|pk: Seq<u8>|
                option_opens_to(self@.options[i as int].1, keys_view(keys@), pk) && stream_opens(
                    pk,
                    self@.nonce,
                    ct@,
                    0,
                    p@,
                ),
            r matches Err(e) ==> e == EnvelopeError::DecryptionFailed,
            forall|pk: Seq<u8>, p: Seq<u8>| decrypts_to(r, p) <== pk.len() == 32 && p.len() <= MAX_PAYLOAD_LEN && concat_keys(keys_view(keys@)).len() <= 0xFFFF_FFFF && #[trigger] option_opens_to(self@.options[i as int].1, keys_view(keys@), pk) && #[trigger] stream_ciphertext(pk, self@.nonce, p, 0) == ct@ && segments_tagged(pk, self@.nonce, p, 0),
    {
        let pk = self.unwrap_primary_key(i, keys)?;
        let r = decrypt_payload(pk.as_slice(), self.nonce.as_slice(), ct);
        proof {
            assert forall|pk2: Seq<u8>, p: Seq<u8>|
                pk2.len() == 32 && p.len() <= MAX_PAYLOAD_LEN && concat_keys(keys_view(keys@)).len()
                    <= 0xFFFF_FFFF && #[trigger] option_opens_to(
                    self@.options[i as int].1,
                    keys_view(keys@),
                    pk2,
                ) && #[trigger] stream_ciphertext(pk2, self@.nonce, p, 0) == ct@ && segments_tagged(
                    pk2,
                    self@.nonce,
                    p,
                    0,
                ) implies decrypts_to(r, p) by {
                assert(decrypts_to(Ok::<Vec<u8>, EnvelopeError>(pk), pk2));
                assert(pk@ == pk2);
            }
        }
        r
    }

    /// The encrypted file for `payload`: the framed header, then the payload
    /// sealed under `primary_key` with the header's nonce.
    pub fn encrypt(&self, primary_key: &[u8], payload: &[u8]) -> (r: Vec<u8>)
        requires
            header_valid(self@),
            primary_key@.len() == 32,
            payload@.len() <= MAX_PAYLOAD_LEN,
        ensures
            r@ == framed(self@) + stream_ciphertext(primary_key@, self@.nonce, payload@, 0),
            segments_tagged(primary_key@, self@.nonce, payload@, 0),
    {
        let mut out = self.to_bytes();
        let mut ct = encrypt_payload(primary_key, self.nonce.as_slice(), payload);
        out.append(&mut ct);
        out
    }

    /// Reads the header at the start of an encrypted file: the 8-byte length,
    /// then that many bytes of header. Returns the header and where the
    /// payload starts. Fails with `HeaderMalformed` on truncation, a length
    /// over `MAX_HEADER_LEN`, or bytes that do not decode.
    pub fn split_file(file: &[u8]) -> (r: Result<(Header, usize), EnvelopeError>)
        ensures
            r matches Ok((h, off)) ==> 8 <= off <= file@.len() && off - 8 == spec_u64_from_le_bytes(
                file@.subrange(0, 8),
            ) && off - 8 <= MAX_HEADER_LEN && decode_header(file@.subrange(8, off as int)) == Some(
                h@,
            ),
            r is Err <==> file@.len() < 8 || spec_u64_from_le_bytes(file@.subrange(0, 8))
                > MAX_HEADER_LEN || file@.len() - 8 < spec_u64_from_le_bytes(file@.subrange(0, 8))
                || decode_header(
                file@.subrange(8, 8 + spec_u64_from_le_bytes(file@.subrange(0, 8))),
            ) is None,
            r matches Err(e) ==> e == EnvelopeError::HeaderMalformed,
    {
        if file.len() < 8 {
            return Err(EnvelopeError::HeaderMalformed);
        }
        let n = Self::header_len(slice_subrange(file, 0, 8))?;
        if file.len() - 8 < n {
            return Err(EnvelopeError::HeaderMalformed);
        }
        let h = Self::from_bytes(slice_subrange(file, 8, 8 + n))?;
        Ok((h, 8 + n))
    }
}

/// An encrypted file reads back: its length prefix gives the header's
/// length, the header decodes to the one written, and the bytes after it
/// open, under the primary key and the header's nonce, to the payload.
pub proof fn file_round_trip(h: HeaderView, primary_key: Seq<u8>, payload: Seq<u8>)
    requires
        header_valid(h),
        header_fits(h),
        fits_u64(enc_header(h).len()),
        segments_tagged(primary_key, h.nonce, payload, 0),
    ensures
        ({
            let f = framed(h) + stream_ciphertext(primary_key, h.nonce, payload, 0);
            let n = spec_u64_from_le_bytes(f.subrange(0, 8)) as int;
            &&& n == enc_header(h).len()
            &&& decode_header(f.subrange(8, 8 + n)) == Some(h)
            &&& stream_opens(primary_key, h.nonce, f.skip(8 + n), 0, payload)
        }),
{
    let body = enc_header(h);
    let ct = stream_ciphertext(primary_key, h.nonce, payload, 0);
    let f = framed(h) + ct;
    vstd::bytes::lemma_auto_spec_u64_to_from_le_bytes();
    assert(f.subrange(0, 8) == enc_u64(body.len()));
    assert(f.subrange(8, 8 + body.len() as int) == body);
    assert(f.skip(8 + body.len() as int) == ct);
    crate::codec::header_round_trip(h);
    crate::stream::stream_round_trip(primary_key, h.nonce, payload, 0);
}

} // verus!
