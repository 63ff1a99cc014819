//! The factors this library knows, and the registry that finds a factor by
//! the name stored in a header. Dispatch is by name: each factor is a variant
//! of `FactorKind`.
use crate::codec::{enc_bytes, parse_bytes};
use crate::error::EnvelopeError;
use crate::header::bytes_eq;
use crate::keywrap::keys_view;
use vstd::prelude::*;
use vstd::slice::{slice_subrange, slice_to_vec};

verus! {

/// The kinds of factor that can stand in an option.
#[derive(Debug, Clone, Copy, PartialEq, Eq)]
pub enum FactorKind {
    Passphrase,
    Ephemeral,
    Shamir,
    Keyfile,
}

/// The name under which a factor is stored in headers (UTF-8 bytes):
/// "Passphrase", "Ephemeral data", "Shamir secret sharing" and "Keyfile".
pub open spec fn kind_name(k: FactorKind) -> Seq<u8> {
    match k {
        FactorKind::Passphrase => seq![80u8, 97, 115, 115, 112, 104, 114, 97, 115, 101],
        FactorKind::Ephemeral => seq![69u8, 112, 104, 101, 109, 101, 114, 97, 108, 32, 100, 97, 116, 97],
        FactorKind::Shamir => seq![83u8, 104, 97, 109, 105, 114, 32, 115, 101, 99, 114, 101, 116, 32, 115, 104, 97, 114, 105, 110, 103],
        FactorKind::Keyfile => seq![75u8, 101, 121, 102, 105, 108, 101],
    }
}

impl FactorKind {
    /// The factor's name, as stored in headers.
    pub fn name(&self) -> (r: Vec<u8>)
        ensures
            r@ == kind_name(*self),
    {
        match self {
            FactorKind::Passphrase => vec![80u8, 97, 115, 115, 112, 104, 114, 97, 115, 101],
            FactorKind::Ephemeral => vec![69u8, 112, 104, 101, 109, 101, 114, 97, 108, 32, 100, 97, 116, 97],
            FactorKind::Shamir => vec![83u8, 104, 97, 109, 105, 114, 32, 115, 101, 99, 114, 101, 116, 32, 115, 104, 97, 114, 105, 110, 103],
            FactorKind::Keyfile => vec![75u8, 101, 121, 102, 105, 108, 101],
        }
    }
}

/// A source of key material: what every factor offers to the envelope.
pub trait BoxedFactor {
    /// Which factor this is.
    fn kind(&self) -> FactorKind;

    /// The factor's name, as stored in headers.
    fn name(&self) -> Vec<u8>;
}

/// The registry of factors, each found by its name.
pub struct FactorRegistry {
    kinds: Vec<FactorKind>,
}

impl View for FactorRegistry {
    type V = Seq<FactorKind>;

    closed spec fn view(&self) -> Seq<FactorKind> {
        self.kinds@
    }
}

/// Whether the registry holds a factor of that name.
pub open spec fn registry_has(reg: Seq<FactorKind>, name: Seq<u8>) -> bool {
    exists|i: int| 0 <= i < reg.len() && kind_name(#[trigger] reg[i]) == name
}

impl FactorRegistry {
    /// The factors in the order they were registered.
    pub fn kinds(&self) -> (r: Vec<FactorKind>)
        ensures
            r@ == self@,
    {
        self.kinds.clone()
    }

    /// The factor stored under `name`, if the registry holds one.
    pub fn lookup(&self, name: &[u8]) -> (r: Option<FactorKind>)
        ensures
            r matches Some(k) ==> self@.contains(k) && kind_name(k) == name@,
            r is None <==> !registry_has(self@, name@),
    {
        let mut i: usize = 0;
        while i < self.kinds.len()
            invariant
                i <= self@.len(),
                forall|j: int| 0 <= j < i ==> kind_name(#[trigger] self@[j]) != name@,
            decreases self@.len() - i,
        {
            let k = self.kinds[i];
            let n = k.name();
            if bytes_eq(n.as_slice(), name) {
                assert(self@[i as int] == k);
                return Some(k);
            }
            i = i + 1;
        }
        None
    }
}

/// The registry of every factor this library provides.
pub fn get_factors() -> (r: FactorRegistry)
    ensures
        r@ == seq![
            FactorKind::Passphrase,
            FactorKind::Ephemeral,
            FactorKind::Shamir,
            FactorKind::Keyfile,
        ],
{
    let mut kinds: Vec<FactorKind> = Vec::new();
    kinds.push(FactorKind::Passphrase);
    kinds.push(FactorKind::Ephemeral);
    kinds.push(FactorKind::Shamir);
    kinds.push(FactorKind::Keyfile);
    assert(kinds@ == seq![
        FactorKind::Passphrase,
        FactorKind::Ephemeral,
        FactorKind::Shamir,
        FactorKind::Keyfile,
    ]);
    FactorRegistry { kinds }
}

/// The value of one hexadecimal digit (either case).
pub open spec fn hex_val(c: u8) -> Option<u8> {
    if 48 <= c <= 57 {
        Some((c - 48) as u8)
    } else if 97 <= c <= 102 {
        Some((c - 87) as u8)
    } else if 65 <= c <= 70 {
        Some((c - 55) as u8)
    } else {
        None
    }
}

/// The bytes that a hexadecimal text stands for: two digits per byte, high
/// digit first; nothing for an odd length or a non-digit.
pub open spec fn hex_decoded(s: Seq<u8>) -> Option<Seq<u8>>
    decreases s.len(),
{
    if s.len() % 2 != 0 {
        None
    } else if s.len() == 0 {
        Some(Seq::empty())
    } else {
        match (hex_val(s[0]), hex_val(s[1]), hex_decoded(s.skip(2))) {
            (Some(h), Some(l), Some(rest)) => Some(seq![(h * 16 + l) as u8] + rest),
            _ => None,
        }
    }
}

/// The lowercase hexadecimal digit (ASCII) for a value below 16.
pub open spec fn hex_digit(v: u8) -> u8 {
    if v < 10 {
        (48 + v) as u8
    } else {
        (87 + v) as u8
    }
}

/// Bytes written as lowercase hexadecimal (ASCII), two digits per byte.
pub open spec fn hex_text(b: Seq<u8>) -> Seq<u8>
    decreases b.len(),
{
    if b.len() == 0 {
        Seq::empty()
    } else {
        seq![hex_digit(b[0] / 16), hex_digit(b[0] % 16)] + hex_text(b.skip(1))
    }
}

/// Reading hexadecimal text back gives the bytes it was written from.
pub proof fn hex_round_trip(b: Seq<u8>)
    ensures
        hex_decoded(hex_text(b)) == Some(b),
    decreases b.len(),
{
    lemma_hex_text_len(b);
    if b.len() > 0 {
        let t = hex_text(b);
        hex_round_trip(b.skip(1));
        lemma_hex_text_len(b.skip(1));
        assert(t.skip(2) == hex_text(b.skip(1)));
        let h = b[0] / 16;
        let l = b[0] % 16;
        assert(hex_val(hex_digit(h)) == Some(h));
        assert(hex_val(hex_digit(l)) == Some(l));
        assert((h * 16 + l) as u8 == b[0]);
        assert(seq![b[0]] + b.skip(1) == b);
    }
}

/// Relies on hex::decode: digits of either case, two per byte, and an error
/// for an odd length or any other character.
#[verifier::external_body]
fn hex_decode(s: &[u8]) -> (r: Option<Vec<u8>>)
    ensures
        r matches Some(v) ==> hex_decoded(s@) == Some(v@),
        r is None ==> hex_decoded(s@) is None,
{
    hex::decode(s).ok()
}

/// Relies on hex::encode: lowercase digits, two per byte (returned as the
/// string's bytes).
#[verifier::external_body]
fn hex_encode(b: &[u8]) -> (r: Vec<u8>)
    ensures
        r@ == hex_text(b@),
{
    hex::encode(b).into_bytes()
}

/// Bytes of secret that a Shamir split shares.
pub const SHAMIR_SECRET_LEN: usize = 64;

/// What shamirsecretsharing's `combine_shares` restores from shares of the
/// right length: the secret, or nothing when they do not reach the threshold
/// or do not belong together.
pub uninterp spec fn shamir_restored(shares: Seq<Seq<u8>>) -> Option<Seq<u8>>;

/// `idx` picks at least `k` distinct positions below `n`.
pub open spec fn quorum_of(idx: Seq<int>, n: nat, k: nat) -> bool {
    &&& idx.len() >= k
    &&& forall|j: int| 0 <= j < idx.len() ==> 0 <= #[trigger] idx[j] < n
    &&& forall|j: int, l: int| 0 <= j < l < idx.len() ==> #[trigger] idx[j] != #[trigger] idx[l]
}

/// The items of `v` at the positions `idx`, in that order.
pub open spec fn pick<T>(v: Seq<T>, idx: Seq<int>) -> Seq<T> {
    idx.map_values(|j: int| v[j])
}

/// `r` holds `n` shares of 113 bytes, if anything.
pub open spec fn shares_made(r: Option<Vec<Vec<u8>>>, n: u8) -> bool {
    r matches Some(s) ==> s@.len() == n && forall|i: int|
        0 <= i < s@.len() ==> (#[trigger] s@[i])@.len() == 113
}

/// Any `k` or more distinct shares of `r`, if it holds shares, restore `secret`.
pub open spec fn quorum_restores(r: Option<Vec<Vec<u8>>>, secret: Seq<u8>, k: u8) -> bool {
    r matches Some(s) ==> forall|idx: Seq<int>|
        quorum_of(idx, s@.len(), k as nat) ==> shamir_restored(#[trigger] pick(keys_view(s@), idx))
            == Some(secret)
}

/// Every share is 113 bytes long.
pub open spec fn shares_sized(shares: Seq<Seq<u8>>) -> bool {
    forall|i: int| 0 <= i < shares.len() ==> (#[trigger] shares[i]).len() == 113
}

/// `r`, if it holds an answer, holds `restored`.
pub open spec fn restored_as(r: Option<Option<Vec<u8>>>, restored: Option<Seq<u8>>) -> bool {
    r matches Some(o) ==> match restored {
        Some(s) => o matches Some(v) && v@ == s && s.len() == 64,
        None => o is None,
    }
}

/// Relies on shamirsecretsharing::create_shares: `n` shares of 113 bytes of a
/// 64-byte secret, any `k` (distinct) of which restore it through
/// `combine_shares`; it refuses `n == 0`, `k == 0`,
/// `k > n` or another secret length.
#[verifier::external_body]
fn split_secret(secret: &[u8], n: u8, k: u8) -> (r: Option<Vec<Vec<u8>>>)
    ensures
        r is Some == (secret@.len() == 64 && 1 <= n && 1 <= k <= n),
        shares_made(r, n),
        quorum_restores(r, secret@, k),
{
    shamirsecretsharing::create_shares(secret, n, k).ok()
}

/// Relies on shamirsecretsharing::combine_shares: an error exactly when a
/// share is not 113 bytes long; otherwise the restored 64-byte secret, or
/// nothing.
#[verifier::external_body]
fn restore_secret(shares: &Vec<Vec<u8>>) -> (r: Option<Option<Vec<u8>>>)
    ensures
        r is None == !shares_sized(keys_view(shares@)),
        restored_as(r, shamir_restored(keys_view(shares@))),
{
    shamirsecretsharing::combine_shares(shares).ok()
}

/// A passphrase factor: the key is the passphrase's UTF-8 bytes, and the
/// factor keeps no data.
pub struct PassphraseFactor;

/// A keyfile factor: the key is a file of 32 random bytes, and the factor
/// keeps no data.
pub struct KeyfileFactor;

/// A Shamir factor: the key is a random 64-byte secret split into shares, and
/// the factor keeps the threshold (one byte).
pub struct ShamirFactor;

/// An ephemeral factor: the key is 32 random bytes uploaded to a file host
/// that lets them expire, and the factor keeps their download URL.
pub struct EphemeralFactor;

/// The data an ephemeral factor keeps: the download URL (UTF-8 bytes).
pub struct EphemeralFactorData {
    pub url: Vec<u8>,
}

impl BoxedFactor for PassphraseFactor {
    fn kind(&self) -> FactorKind {
        FactorKind::Passphrase
    }

    fn name(&self) -> Vec<u8> {
        FactorKind::Passphrase.name()
    }
}

impl BoxedFactor for KeyfileFactor {
    fn kind(&self) -> FactorKind {
        FactorKind::Keyfile
    }

    fn name(&self) -> Vec<u8> {
        FactorKind::Keyfile.name()
    }
}

impl BoxedFactor for ShamirFactor {
    fn kind(&self) -> FactorKind {
        FactorKind::Shamir
    }

    fn name(&self) -> Vec<u8> {
        FactorKind::Shamir.name()
    }
}

impl BoxedFactor for EphemeralFactor {
    fn kind(&self) -> FactorKind {
        FactorKind::Ephemeral
    }

    fn name(&self) -> Vec<u8> {
        FactorKind::Ephemeral.name()
    }
}

/// `e` is a failure of the factor `kind`.
pub open spec fn factor_failed(e: EnvelopeError, kind: FactorKind) -> bool {
    e matches EnvelopeError::FactorFailed(n, _) && n@ == kind_name(kind)
}

/// A factor's failure, under the factor's name.
fn failed(kind: FactorKind, reason: &str) -> (r: EnvelopeError)
    ensures
        factor_failed(r, kind),
{
    EnvelopeError::FactorFailed(kind.name(), slice_to_vec(reason.as_bytes()))
}

impl KeyfileFactor {
    /// The key held in a keyfile's contents, which must be 32 bytes long.
    pub fn key_from_file(contents: &[u8]) -> (r: Result<Vec<u8>, EnvelopeError>)
        ensures
            contents@.len() == 32 ==> (r matches Ok(k) && k@ == contents@),
            contents@.len() != 32 ==> (r matches Err(e) && factor_failed(e, FactorKind::Keyfile)),
    {
        if contents.len() != 32 {
            return Err(failed(FactorKind::Keyfile, "keyfile had incorrect length (corrupted)"));
        }
        Ok(slice_to_vec(contents))
    }
}

impl ShamirFactor {
    /// The factor data for a threshold of `quorum` shares.
    pub fn encode_data(quorum: u8) -> (r: Vec<u8>)
        ensures
            r@ == seq![quorum],
    {
        let mut v: Vec<u8> = Vec::new();
        v.push(quorum);
        v
    }

    /// The threshold that factor data holds (its first byte).
    pub fn decode_data(data: &[u8]) -> (r: Result<u8, EnvelopeError>)
        ensures
            data@.len() >= 1 ==> r == Ok::<u8, EnvelopeError>(data@[0]),
            data@.len() == 0 ==> (r matches Err(e) && factor_failed(e, FactorKind::Shamir)),
    {
        if data.len() == 0 {
            return Err(failed(FactorKind::Shamir, "factor data is truncated"));
        }
        Ok(data[0])
    }

    /// Splits a 64-byte secret into `shares` shares, any `quorum` of which
    /// restore it. Returns the factor data and each share in hexadecimal.
    pub fn split(secret: &[u8], shares: u8, quorum: u8) -> (r: Result<(Vec<u8>, Vec<Vec<u8>>), EnvelopeError>)
        requires
            secret@.len() == SHAMIR_SECRET_LEN,
        ensures
            r is Ok <==> 1 <= shares && 1 <= quorum <= shares,
            r matches Ok((data, hexes)) ==> data@ == seq![quorum] && hexes@.len() == shares
                && forall|i: int| 0 <= i < hexes@.len() ==> (#[trigger] hexes@[i])@.len() == 226,
            r matches Ok((data, hexes)) ==> forall|idx: Seq<int>|
                quorum_of(idx, hexes@.len(), quorum as nat) ==> combined(
                    #[trigger] pick(keys_view(hexes@), idx),
                ) == Some(secret@),
            r matches Err(e) ==> factor_failed(e, FactorKind::Shamir),
    {
        let parts = match split_secret(secret, shares, quorum) {
            Some(p) => p,
            None => return Err(failed(FactorKind::Shamir, "failed to split into shares")),
        };
        let ghost pv = keys_view(parts@);
        let mut hexes: Vec<Vec<u8>> = Vec::new();
        let mut i: usize = 0;
        while i < parts.len()
            invariant
                i <= parts@.len(),
                pv == keys_view(parts@),
                hexes@.len() == i,
                forall|j: int| 0 <= j < parts@.len() ==> (#[trigger] parts@[j])@.len() == 113,
                forall|j: int| 0 <= j < i ==> (#[trigger] hexes@[j])@ == hex_text(pv[j]),
                forall|j: int| 0 <= j < i ==> (#[trigger] hexes@[j])@.len() == 226,
            decreases parts@.len() - i,
        {
            let h = hex_encode(parts[i].as_slice());
            proof {
                lemma_hex_text_len(parts@[i as int]@);
            }
            hexes.push(h);
            i = i + 1;
        }
        proof {
            let hv = keys_view(hexes@);
            assert forall|idx: Seq<int>| quorum_of(idx, hexes@.len(), quorum as nat) implies combined(
                #[trigger] pick(hv, idx),
            ) == Some(secret@) by {
                let ph = pick(hv, idx);
                let ps = pick(pv, idx);
                assert forall|j: int| 0 <= j < ph.len() implies (#[trigger] hex_decoded(ph[j]))
                    is Some by {
                    hex_round_trip(pv[idx[j]]);
                    assert(ph[j] == hex_text(pv[idx[j]]));
                }
                assert(decoded_shares(ph) == ps) by {
                    assert forall|j: int| 0 <= j < ph.len() implies decoded_shares(ph)[j]
                        == ps[j] by {
                        hex_round_trip(pv[idx[j]]);
                        assert(ph[j] == hex_text(pv[idx[j]]));
                    }
                }
                assert(shares_sized(ps)) by {
                    assert forall|j: int| 0 <= j < ps.len() implies (#[trigger] ps[j]).len()
                        == 113 by {
                        assert(ps[j] == parts@[idx[j]]@);
                    }
                }
                assert(shamir_restored(pick(keys_view(parts@), idx)) == Some(secret@));
            }
        }
        Ok((Self::encode_data(quorum), hexes))
    }

    /// The secret that shares written in hexadecimal restore.
    pub fn combine(shares_hex: &Vec<Vec<u8>>) -> (r: Result<Vec<u8>, EnvelopeError>)
        ensures
            r is Ok <==> combined(keys_view(shares_hex@)) is Some,
            r matches Ok(k) ==> combined(keys_view(shares_hex@)) == Some(k@),
            r matches Err(e) ==> factor_failed(e, FactorKind::Shamir),
    {
        let ghost hv = keys_view(shares_hex@);
        let mut shares: Vec<Vec<u8>> = Vec::new();
        let mut i: usize = 0;
        while i < shares_hex.len()
            invariant
                i <= shares_hex@.len(),
                hv == keys_view(shares_hex@),
                shares@.len() == i,
                forall|j: int| 0 <= j < i ==> hex_decoded(#[trigger] hv[j]) == Some(shares@[j]@),
            decreases shares_hex@.len() - i,
        {
            match hex_decode(shares_hex[i].as_slice()) {
                Some(s) => shares.push(s),
                None => {
                    assert(hex_decoded(hv[i as int]) is None);
                    return Err(
                        failed(FactorKind::Shamir, "failed to decode share (are you sure it's correct?)"),
                    );
                },
            }
            i = i + 1;
        }
        assert(keys_view(shares@) == decoded_shares(hv));
        match restore_secret(&shares) {
            Some(Some(k)) => Ok(k),
            Some(None) => Err(
                failed(FactorKind::Shamir, "failed to combine secrets (some are likely corrupted)"),
            ),
            None => Err(failed(FactorKind::Shamir, "failed to combine shares")),
        }
    }
}

/// The secret that hexadecimal shares restore: each text must be
/// hexadecimal and each share 113 bytes long.
pub open spec fn combined(hexes: Seq<Seq<u8>>) -> Option<Seq<u8>> {
    if all_hex(hexes) && shares_sized(decoded_shares(hexes)) {
        shamir_restored(decoded_shares(hexes))
    } else {
        None
    }
}

/// Every text is hexadecimal.
pub open spec fn all_hex(hexes: Seq<Seq<u8>>) -> bool {
    forall|i: int| 0 <= i < hexes.len() ==> (#[trigger] hex_decoded(hexes[i])) is Some
}

/// The bytes each hexadecimal text stands for.
pub open spec fn decoded_shares(hexes: Seq<Seq<u8>>) -> Seq<Seq<u8>> {
    hexes.map_values(
        |h: Seq<u8>|
            match hex_decoded(h) {
                Some(b) => b,
                None => Seq::empty(),
            },
    )
}

proof fn lemma_hex_text_len(b: Seq<u8>)
    ensures
        hex_text(b).len() == 2 * b.len(),
    decreases b.len(),
{
    if b.len() > 0 {
        lemma_hex_text_len(b.skip(1));
    }
}

impl EphemeralFactorData {
    /// The factor data: the URL as a length-prefixed byte string.
    pub fn encode(&self) -> (r: Vec<u8>)
        ensures
            r@ == enc_bytes(self.url@),
    {
        let mut out = vstd::bytes::u64_to_le_bytes(self.url.len() as u64);
        let mut u = self.url.clone();
        assert(u@ == self.url@);
        out.append(&mut u);
        out
    }

    /// Reads the URL back from factor data (bytes after it are ignored).
    pub fn decode(data: &[u8]) -> (r: Result<EphemeralFactorData, EnvelopeError>)
        ensures
            r matches Ok(d) ==> parse_bytes(data@, 0) matches Some((u, _)) && d.url@ == u,
            r is Err <==> parse_bytes(data@, 0) is None,
            r matches Err(e) ==> factor_failed(e, FactorKind::Ephemeral),
    {
        if data.len() < 8 {
            return Err(failed(FactorKind::Ephemeral, "factor data is truncated"));
        }
        let n = vstd::bytes::u64_from_le_bytes(slice_subrange(data, 0, 8));
        if ((data.len() - 8) as u64) < n {
            return Err(failed(FactorKind::Ephemeral, "factor data is truncated"));
        }
        let url = slice_to_vec(slice_subrange(data, 8, 8 + n as usize));
        Ok(EphemeralFactorData { url })
    }
}

/// The length of the UTF-8 encoding of a Unicode white-space character
/// (`char::is_whitespace`) at the start of `l`, or 0 if none starts there.
/// In UTF-8 text these byte patterns can only start at a character boundary.
pub open spec fn space_len(l: Seq<u8>) -> nat {
    if l.len() >= 1 && (l[0] == 32 || 9 <= l[0] <= 13) {
        1
    } else if l.len() >= 2 && l[0] == 0xC2 && (l[1] == 0x85 || l[1] == 0xA0) {
        2
    } else if l.len() >= 3 && l[0] == 0xE1 && l[1] == 0x9A && l[2] == 0x80 {
        3
    } else if l.len() >= 3 && l[0] == 0xE2 && l[1] == 0x80 && (l[2] <= 0x8A || l[2] == 0xA8
        || l[2] == 0xA9 || l[2] == 0xAF) && l[2] >= 0x80 {
        3
    } else if l.len() >= 3 && l[0] == 0xE2 && l[1] == 0x81 && l[2] == 0x9F {
        3
    } else if l.len() >= 3 && l[0] == 0xE3 && l[1] == 0x80 && l[2] == 0x80 {
        3
    } else {
        0
    }
}

/// The line is white space only.
pub open spec fn is_blank(l: Seq<u8>) -> bool
    decreases l.len(),
{
    if l.len() == 0 {
        true
    } else if space_len(l) == 0 {
        false
    } else {
        is_blank(l.skip(space_len(l) as int))
    }
}

/// The lines of `s`, split at each `\n` (a final `\n` leaves an empty last line).
pub open spec fn lines(s: Seq<u8>) -> Seq<Seq<u8>>
    decreases s.len(),
{
    if s.len() == 0 {
        seq![Seq::empty()]
    } else if s.last() == 10 {
        lines(s.drop_last()).push(Seq::empty())
    } else {
        let r = lines(s.drop_last());
        r.update(r.len() - 1, r.last().push(s.last()))
    }
}

/// The lines that hold something other than white space, in order.
pub open spec fn nonblank(ls: Seq<Seq<u8>>) -> Seq<Seq<u8>>
    decreases ls.len(),
{
    if ls.len() == 0 {
        Seq::empty()
    } else if is_blank(ls.last()) {
        nonblank(ls.drop_last())
    } else {
        nonblank(ls.drop_last()).push(ls.last())
    }
}

pub open spec fn trim_start(l: Seq<u8>) -> Seq<u8>
    decreases l.len(),
{
    if space_len(l) > 0 {
        trim_start(l.skip(space_len(l) as int))
    } else {
        l
    }
}

/// The bytes of `l` up to its first white space.
pub open spec fn take_word(l: Seq<u8>) -> Seq<u8>
    decreases l.len(),
{
    if l.len() == 0 || space_len(l) > 0 {
        Seq::empty()
    } else {
        seq![l[0]] + take_word(l.skip(1))
    }
}

/// The download URL in the file host's answer to an upload (UTF-8 text):
/// the answer has three non-blank lines (administration, download, onion
/// download), and the URL is the first word of the second.
pub open spec fn download_url(body: Seq<u8>) -> Option<Seq<u8>> {
    let ls = nonblank(lines(body));
    if ls.len() == 3 {
        Some(take_word(trim_start(ls[1])))
    } else {
        None
    }
}

/// `space_len` of `s[i..b]`.
fn space_len_at(s: &[u8], i: usize, b: usize) -> (r: usize)
    requires
        i <= b <= s@.len(),
    ensures
        r == space_len(s@.subrange(i as int, b as int)),
        r <= b - i,
{
    let ghost l = s@.subrange(i as int, b as int);
    let n = b - i;
    if n >= 1 && (s[i] == 32 || (9 <= s[i] && s[i] <= 13)) {
        return 1;
    }
    if n >= 2 && s[i] == 0xC2 && (s[i + 1] == 0x85 || s[i + 1] == 0xA0) {
        return 2;
    }
    if n >= 3 {
        let (x, y, z) = (s[i], s[i + 1], s[i + 2]);
        assert(l[0] == x && l[1] == y && l[2] == z);
        if x == 0xE1 && y == 0x9A && z == 0x80 {
            return 3;
        }
        if x == 0xE2 && y == 0x80 && z >= 0x80 && (z <= 0x8A || z == 0xA8 || z == 0xA9 || z
            == 0xAF) {
            return 3;
        }
        if x == 0xE2 && y == 0x81 && z == 0x9F {
            return 3;
        }
        if x == 0xE3 && y == 0x80 && z == 0x80 {
            return 3;
        }
    }
    0
}

fn blank_between(s: &[u8], a: usize, b: usize) -> (r: bool)
    requires
        a <= b <= s@.len(),
    ensures
        r == is_blank(s@.subrange(a as int, b as int)),
{
    let mut i: usize = a;
    while i < b
        invariant
            a <= i <= b <= s@.len(),
            is_blank(s@.subrange(a as int, b as int)) == is_blank(s@.subrange(i as int, b as int)),
        decreases b - i,
    {
        let w = space_len_at(s, i, b);
        if w == 0 {
            return false;
        }
        assert(s@.subrange(i as int, b as int).skip(w as int) == s@.subrange(i + w, b as int));
        i = i + w;
    }
    true
}

/// The first word of `s[a..b]`, after its leading white space.
fn first_word(s: &[u8], a: usize, b: usize) -> (r: Vec<u8>)
    requires
        a <= b <= s@.len(),
    ensures
        r@ == take_word(trim_start(s@.subrange(a as int, b as int))),
{
    let mut i: usize = a;
    while space_len_at(s, i, b) > 0
        invariant
            a <= i <= b <= s@.len(),
            trim_start(s@.subrange(a as int, b as int)) == trim_start(
                s@.subrange(i as int, b as int),
            ),
        decreases b - i,
    {
        let w = space_len_at(s, i, b);
        assert(s@.subrange(i as int, b as int).skip(w as int) == s@.subrange(i + w, b as int));
        i = i + w;
    }
    let start = i;
    assert(trim_start(s@.subrange(start as int, b as int)) == s@.subrange(start as int, b as int));
    while i < b && space_len_at(s, i, b) == 0
        invariant
            start <= i <= b <= s@.len(),
            take_word(s@.subrange(start as int, b as int)) == s@.subrange(start as int, i as int)
                + take_word(s@.subrange(i as int, b as int)),
        decreases b - i,
    {
        assert(s@.subrange(i as int, b as int).skip(1) == s@.subrange(i + 1, b as int));
        assert(s@.subrange(start as int, i as int) + seq![s@[i as int]] == s@.subrange(
            start as int,
            i + 1,
        ));
        assert(s@.subrange(start as int, i as int) + (seq![s@[i as int]] + take_word(
            s@.subrange(i + 1, b as int),
        )) == s@.subrange(start as int, i + 1) + take_word(s@.subrange(i + 1, b as int)));
        i = i + 1;
    }
    assert(take_word(s@.subrange(i as int, b as int)) == Seq::<u8>::empty());
    assert(s@.subrange(start as int, i as int) + Seq::<u8>::empty() == s@.subrange(
        start as int,
        i as int,
    ));
    slice_to_vec(slice_subrange(s, start, i))
}

/// Finds the download URL in the file host's answer to an upload.
pub fn download_url_of(body: &[u8]) -> (r: Option<Vec<u8>>)
    ensures
        match download_url(body@) {
            Some(u) => r matches Some(v) && v@ == u,
            None => r is None,
        },
{
    let ghost mut done: Seq<Seq<u8>> = Seq::empty();
    let mut start: usize = 0;
    let mut count: usize = 0;
    let mut sa: usize = 0;
    let mut sb: usize = 0;
    let mut i: usize = 0;
    assert(body@.take(0) == Seq::<u8>::empty());
    assert(body@.subrange(0, 0) == Seq::<u8>::empty());
    while i < body.len()
        invariant
            start <= i <= body@.len(),
            sa <= sb <= body@.len(),
            lines(body@.take(i as int)) == done.push(body@.subrange(start as int, i as int)),
            count as int == if nonblank(done).len() < 4 {
                nonblank(done).len() as int
            } else {
                4
            },
            count >= 2 ==> nonblank(done)[1] == body@.subrange(sa as int, sb as int),
        decreases body@.len() - i,
    {
        let ghost t = body@.take(i + 1);
        assert(t.drop_last() == body@.take(i as int));
        assert(t.last() == body@[i as int]);
        if body[i] == 10 {
            let blank = blank_between(body, start, i);
            let ghost line = body@.subrange(start as int, i as int);
            if !blank {
                if count == 1 {
                    sa = start;
                    sb = i;
                }
                if count < 4 {
                    count = count + 1;
                }
            }
            proof {
                let old_done = done;
                done = done.push(line);
                assert(done.drop_last() == old_done);
                assert(done.last() == line);
                if !blank {
                    assert(nonblank(done) == nonblank(old_done).push(line));
                    if count >= 2 {
                        assert(nonblank(done)[1] == body@.subrange(sa as int, sb as int));
                    }
                }
                assert(body@.subrange(i + 1, i + 1) == Seq::<u8>::empty());
            }
            start = i + 1;
        } else {
            proof {
                assert(body@.subrange(start as int, i as int).push(body@[i as int])
                    == body@.subrange(start as int, i + 1));
                assert(done.push(body@.subrange(start as int, i as int)).update(
                    done.len() as int,
                    body@.subrange(start as int, i + 1),
                ) == done.push(body@.subrange(start as int, i + 1)));
            }
        }
        i = i + 1;
    }
    assert(body@.take(i as int) == body@);
    let last_blank = blank_between(body, start, body.len());
    let ghost last = body@.subrange(start as int, body@.len() as int);
    proof {
        let all = done.push(last);
        assert(all.drop_last() == done);
        assert(all.last() == last);
    }
    if !last_blank {
        if count == 1 {
            sa = start;
            sb = body.len();
        }
        if count < 4 {
            count = count + 1;
        }
    }
    if count != 3 {
        return None;
    }
    Some(first_word(body, sa, sb))
}

impl EphemeralFactor {
    /// The factor data for an upload, from the file host's answer: status
    /// 200 and a download URL in the body.
    pub fn data_from_upload(status: u16, body: &[u8]) -> (r: Result<EphemeralFactorData, EnvelopeError>)
        ensures
            r matches Ok(d) ==> status == 200 && download_url(body@) == Some(d.url@),
            r is Err <==> status != 200 || download_url(body@) is None,
            r matches Err(e) ==> factor_failed(e, FactorKind::Ephemeral),
    {
        if status != 200 {
            return Err(failed(FactorKind::Ephemeral, "failed to upload ephemeral data"));
        }
        match download_url_of(body) {
            Some(url) => Ok(EphemeralFactorData { url }),
            None => Err(failed(FactorKind::Ephemeral, "unexpected response from ephemeral data service")),
        }
    }

    /// The key in a download's answer: status 200 and at least 32 bytes, of
    /// which the first 32 are the key.
    pub fn key_from_download(status: u16, body: &[u8]) -> (r: Result<Vec<u8>, EnvelopeError>)
        ensures
            status == 200 && body@.len() >= 32 ==> (r matches Ok(k) && k@ == body@.take(32)),
            !(status == 200 && body@.len() >= 32) ==> (r matches Err(e) && factor_failed(
                e,
                FactorKind::Ephemeral,
            )),
    {
        if status != 200 {
            return Err(failed(FactorKind::Ephemeral, "failed to download ephemeral data (may have expired)"));
        }
        if body.len() < 32 {
            return Err(failed(FactorKind::Ephemeral, "ephemeral data is truncated"));
        }
        Ok(slice_to_vec(slice_subrange(body, 0, 32)))
    }
}

} // verus!
