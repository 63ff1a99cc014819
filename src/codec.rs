//! The header's binary format, as sequences of bytes: little-endian 64-bit
//! lengths and counts, byte strings prefixed by their length, fixed-size
//! arrays written as they are, fields and list items in order.
use vstd::bytes::{lemma_auto_spec_u64_to_from_le_bytes, spec_u64_from_le_bytes, spec_u64_to_le_bytes};
use vstd::prelude::*;

verus! {

/// A factor reference of an option: the factor's name and its public data.
pub type FactorView = (Seq<u8>, Seq<u8>);

/// An option as the format sees it.
pub struct OptionView {
    pub salt: Seq<u8>,
    pub factors: Seq<FactorView>,
    pub primary_key_nonce: Seq<u8>,
    pub primary_key_ciphertext: Seq<u8>,
}

/// A header as the format sees it: named options in stored order, and the
/// stream nonce.
pub struct HeaderView {
    pub options: Seq<(Seq<u8>, OptionView)>,
    pub nonce: Seq<u8>,
}

pub open spec fn fits_u64(n: nat) -> bool {
    n <= u64::MAX
}

pub open spec fn enc_u64(n: nat) -> Seq<u8> {
    spec_u64_to_le_bytes(n as u64)
}

pub open spec fn enc_bytes(b: Seq<u8>) -> Seq<u8> {
    enc_u64(b.len()) + b
}

pub open spec fn enc_factor(f: FactorView) -> Seq<u8> {
    enc_bytes(f.0) + enc_bytes(f.1)
}

pub open spec fn enc_factors(fs: Seq<FactorView>) -> Seq<u8>
    decreases fs.len(),
{
    if fs.len() == 0 {
        Seq::empty()
    } else {
        enc_factors(fs.drop_last()) + enc_factor(fs.last())
    }
}

pub open spec fn enc_option(o: OptionView) -> Seq<u8> {
    o.salt + enc_u64(o.factors.len()) + enc_factors(o.factors) + o.primary_key_nonce + enc_bytes(
        o.primary_key_ciphertext,
    )
}

pub open spec fn enc_entry(e: (Seq<u8>, OptionView)) -> Seq<u8> {
    enc_bytes(e.0) + enc_option(e.1)
}

pub open spec fn enc_entries(es: Seq<(Seq<u8>, OptionView)>) -> Seq<u8>
    decreases es.len(),
{
    if es.len() == 0 {
        Seq::empty()
    } else {
        enc_entries(es.drop_last()) + enc_entry(es.last())
    }
}

/// The serialized header (without its length prefix).
pub open spec fn enc_header(h: HeaderView) -> Seq<u8> {
    enc_u64(h.options.len()) + enc_entries(h.options) + h.nonce
}

/// Whether `b` holds `e` from position `p` on.
pub open spec fn holds_at(b: Seq<u8>, p: int, e: Seq<u8>) -> bool {
    0 <= p && p + e.len() <= b.len() && b.subrange(p, p + e.len()) == e
}

pub open spec fn parse_u64(b: Seq<u8>, p: int) -> Option<(nat, int)> {
    if 0 <= p && p + 8 <= b.len() {
        Some((spec_u64_from_le_bytes(b.subrange(p, p + 8)) as nat, p + 8))
    } else {
        None
    }
}

pub open spec fn parse_fixed(b: Seq<u8>, p: int, n: nat) -> Option<(Seq<u8>, int)> {
    if 0 <= p && p + n <= b.len() {
        Some((b.subrange(p, p + n), p + n))
    } else {
        None
    }
}

pub open spec fn parse_bytes(b: Seq<u8>, p: int) -> Option<(Seq<u8>, int)> {
    match parse_u64(b, p) {
        Some((n, q)) => parse_fixed(b, q, n),
        None => None,
    }
}

pub open spec fn parse_factor(b: Seq<u8>, p: int) -> Option<(FactorView, int)> {
    match parse_bytes(b, p) {
        Some((name, q)) => match parse_bytes(b, q) {
            Some((data, r)) => Some(((name, data), r)),
            None => None,
        },
        None => None,
    }
}

/// The first `count` factor references from position `p`.
pub open spec fn parse_factors(b: Seq<u8>, p: int, count: nat) -> Option<(Seq<FactorView>, int)>
    decreases count,
{
    if count == 0 {
        Some((Seq::empty(), p))
    } else {
        match parse_factors(b, p, (count - 1) as nat) {
            Some((fs, q)) => match parse_factor(b, q) {
                Some((f, r)) => Some((fs.push(f), r)),
                None => None,
            },
            None => None,
        }
    }
}

pub open spec fn parse_option(b: Seq<u8>, p: int) -> Option<(OptionView, int)> {
    match parse_fixed(b, p, 32) {
        Some((salt, at1)) => match parse_u64(b, at1) {
            Some((count, at2)) => match parse_factors(b, at2, count) {
                Some((factors, at3)) => match parse_fixed(b, at3, 12) {
                    Some((nonce, at4)) => match parse_bytes(b, at4) {
                        Some((ct, at5)) => Some(
                            (
                                OptionView {
                                    salt,
                                    factors,
                                    primary_key_nonce: nonce,
                                    primary_key_ciphertext: ct,
                                },
                                at5,
                            ),
                        ),
                        None => None,
                    },
                    None => None,
                },
                None => None,
            },
            None => None,
        },
        None => None,
    }
}

pub open spec fn parse_entry(b: Seq<u8>, p: int) -> Option<((Seq<u8>, OptionView), int)> {
    match parse_bytes(b, p) {
        Some((name, q)) => match parse_option(b, q) {
            Some((o, r)) => Some(((name, o), r)),
            None => None,
        },
        None => None,
    }
}

/// The first `count` named options from position `p`.
pub open spec fn parse_entries(b: Seq<u8>, p: int, count: nat) -> Option<
    (Seq<(Seq<u8>, OptionView)>, int),
>
    decreases count,
{
    if count == 0 {
        Some((Seq::empty(), p))
    } else {
        match parse_entries(b, p, (count - 1) as nat) {
            Some((es, q)) => match parse_entry(b, q) {
                Some((e, r)) => Some((es.push(e), r)),
                None => None,
            },
            None => None,
        }
    }
}

/// The header that `b` holds from its start, and where it ends.
pub open spec fn parse_header(b: Seq<u8>) -> Option<(HeaderView, int)> {
    match parse_u64(b, 0) {
        Some((count, at1)) => match parse_entries(b, at1, count) {
            Some((options, at2)) => match parse_fixed(b, at2, 7) {
                Some((nonce, at3)) => Some((HeaderView { options, nonce }, at3)),
                None => None,
            },
            None => None,
        },
        None => None,
    }
}

/// Whether the bytes are well-formed UTF-8.
pub uninterp spec fn utf8_valid(b: Seq<u8>) -> bool;

/// Relies on `std::str::from_utf8`: it accepts exactly the well-formed UTF-8.
#[verifier::external_body]
pub(crate) fn is_utf8(b: &[u8]) -> (r: bool)
    ensures
        r == utf8_valid(b@),
{
    std::str::from_utf8(b).is_ok()
}

/// An option whose fixed-size fields have the format's sizes and whose factor
/// names are UTF-8.
pub open spec fn option_valid(o: OptionView) -> bool {
    &&& o.salt.len() == 32
    &&& o.primary_key_nonce.len() == 12
    &&& forall|i: int| 0 <= i < o.factors.len() ==> utf8_valid((#[trigger] o.factors[i]).0)
}

/// A header whose fixed-size fields have the format's sizes and whose option
/// names are UTF-8.
pub open spec fn header_shaped(h: HeaderView) -> bool {
    &&& h.nonce.len() == 7
    &&& forall|i: int|
        0 <= i < h.options.len() ==> option_valid((#[trigger] h.options[i]).1) && utf8_valid(
            h.options[i].0,
        )
}

/// Every length and count of the option fits the format's 64-bit fields.
pub open spec fn option_fits(o: OptionView) -> bool {
    &&& fits_u64(o.factors.len())
    &&& fits_u64(o.primary_key_ciphertext.len())
    &&& forall|i: int|
        0 <= i < o.factors.len() ==> fits_u64((#[trigger] o.factors[i]).0.len()) && fits_u64(
            o.factors[i].1.len(),
        )
}

/// Every length and count of the header fits the format's 64-bit fields
/// (true of every header held in memory).
pub open spec fn header_fits(h: HeaderView) -> bool {
    &&& fits_u64(h.options.len())
    &&& forall|i: int|
        0 <= i < h.options.len() ==> fits_u64((#[trigger] h.options[i]).0.len()) && option_fits(
            h.options[i].1,
        )
}

/// No two options share a name.
pub open spec fn names_unique(options: Seq<(Seq<u8>, OptionView)>) -> bool {
    forall|i: int, j: int|
        0 <= i < j < options.len() ==> #[trigger] options[i].0 != #[trigger] options[j].0
}

/// A header that can stand in a file: well-shaped, with at least one option
/// and no repeated option name.
pub open spec fn header_valid(h: HeaderView) -> bool {
    &&& header_shaped(h)
    &&& h.options.len() >= 1
    &&& names_unique(h.options)
}

/// The header that the serialized bytes `b` decode to: they must hold one
/// whole valid header and nothing after it.
pub open spec fn decode_header(b: Seq<u8>) -> Option<HeaderView> {
    match parse_header(b) {
        Some((h, end)) => if end == b.len() && header_valid(h) {
            Some(h)
        } else {
            None
        },
        None => None,
    }
}

pub proof fn lemma_holds_split(b: Seq<u8>, p: int, x: Seq<u8>, y: Seq<u8>)
    requires
        holds_at(b, p, x + y),
    ensures
        holds_at(b, p, x),
        holds_at(b, p + x.len(), y),
{
    assert(b.subrange(p, p + x.len()) == (x + y).subrange(0, x.len() as int));
    assert(b.subrange(p + x.len(), p + x.len() + y.len()) == (x + y).subrange(
        x.len() as int,
        (x.len() + y.len()) as int,
    ));
    assert((x + y).subrange(0, x.len() as int) == x);
    assert((x + y).subrange(x.len() as int, (x.len() + y.len()) as int) == y);
}

pub proof fn lemma_parse_u64(b: Seq<u8>, p: int, n: nat)
    requires
        holds_at(b, p, enc_u64(n)),
        fits_u64(n),
    ensures
        parse_u64(b, p) == Some((n, p + 8)),
{
    lemma_auto_spec_u64_to_from_le_bytes();
}

pub proof fn lemma_parse_bytes(b: Seq<u8>, p: int, s: Seq<u8>)
    requires
        holds_at(b, p, enc_bytes(s)),
        fits_u64(s.len()),
    ensures
        parse_bytes(b, p) == Some((s, p + 8 + s.len())),
{
    lemma_auto_spec_u64_to_from_le_bytes();
    lemma_holds_split(b, p, enc_u64(s.len()), s);
    lemma_parse_u64(b, p, s.len());
}

pub proof fn lemma_parse_factors(b: Seq<u8>, p: int, fs: Seq<FactorView>)
    requires
        holds_at(b, p, enc_factors(fs)),
        forall|i: int|
            0 <= i < fs.len() ==> fits_u64((#[trigger] fs[i]).0.len()) && fits_u64(fs[i].1.len()),
    ensures
        parse_factors(b, p, fs.len()) == Some((fs, p + enc_factors(fs).len())),
    decreases fs.len(),
{
    if fs.len() > 0 {
        let init = fs.drop_last();
        lemma_holds_split(b, p, enc_factors(init), enc_factor(fs.last()));
        assert forall|i: int| 0 <= i < init.len() implies fits_u64((#[trigger] init[i]).0.len())
            && fits_u64(init[i].1.len()) by {
            assert(init[i] == fs[i]);
        }
        lemma_parse_factors(b, p, init);
        let q = p + enc_factors(init).len();
        let f = fs.last();
        assert(fits_u64(fs[fs.len() - 1].0.len()) && fits_u64(fs[fs.len() - 1].1.len()));
        lemma_holds_split(b, q, enc_bytes(f.0), enc_bytes(f.1));
        lemma_parse_bytes(b, q, f.0);
        lemma_parse_bytes(b, q + enc_bytes(f.0).len(), f.1);
        lemma_auto_spec_u64_to_from_le_bytes();
        assert(parse_factor(b, q) == Some((f, q + enc_factor(f).len())));
        assert(init.push(f) == fs);
        assert(parse_factors(b, p, init.len()) == Some((init, q)));
        assert((fs.len() - 1) as nat == init.len());
    } else {
        assert(fs == Seq::<FactorView>::empty());
    }
}

pub proof fn lemma_parse_option(b: Seq<u8>, p: int, o: OptionView)
    requires
        holds_at(b, p, enc_option(o)),
        option_valid(o),
        option_fits(o),
    ensures
        parse_option(b, p) == Some((o, p + enc_option(o).len())),
{
    let s1 = o.salt;
    let s2 = enc_u64(o.factors.len());
    let s3 = enc_factors(o.factors);
    let s4 = o.primary_key_nonce;
    let s5 = enc_bytes(o.primary_key_ciphertext);
    lemma_auto_spec_u64_to_from_le_bytes();
    lemma_holds_split(b, p, s1 + s2 + s3 + s4, s5);
    lemma_holds_split(b, p, s1 + s2 + s3, s4);
    lemma_holds_split(b, p, s1 + s2, s3);
    lemma_holds_split(b, p, s1, s2);
    let at1 = p + 32;
    let at2 = at1 + 8;
    let at3 = at2 + s3.len();
    let at4 = at3 + 12;
    lemma_parse_u64(b, at1, o.factors.len());
    lemma_parse_factors(b, at2, o.factors);
    lemma_parse_bytes(b, at4, o.primary_key_ciphertext);
}

pub proof fn lemma_parse_entries(b: Seq<u8>, p: int, es: Seq<(Seq<u8>, OptionView)>)
    requires
        holds_at(b, p, enc_entries(es)),
        forall|i: int|
            0 <= i < es.len() ==> fits_u64((#[trigger] es[i]).0.len()) && option_valid(es[i].1)
                && option_fits(es[i].1),
    ensures
        parse_entries(b, p, es.len()) == Some((es, p + enc_entries(es).len())),
    decreases es.len(),
{
    if es.len() > 0 {
        let init = es.drop_last();
        lemma_holds_split(b, p, enc_entries(init), enc_entry(es.last()));
        assert forall|i: int| 0 <= i < init.len() implies fits_u64((#[trigger] init[i]).0.len())
            && option_valid(init[i].1) && option_fits(init[i].1) by {
            assert(init[i] == es[i]);
        }
        lemma_parse_entries(b, p, init);
        let q = p + enc_entries(init).len();
        let e = es.last();
        assert(fits_u64(es[es.len() - 1].0.len()) && option_valid(es[es.len() - 1].1) && option_fits(
            es[es.len() - 1].1,
        ));
        lemma_holds_split(b, q, enc_bytes(e.0), enc_option(e.1));
        lemma_parse_bytes(b, q, e.0);
        lemma_parse_option(b, q + enc_bytes(e.0).len(), e.1);
        lemma_auto_spec_u64_to_from_le_bytes();
        assert(parse_entry(b, q) == Some((e, q + enc_entry(e).len())));
        assert(init.push(e) == es);
        assert(parse_entries(b, p, init.len()) == Some((init, q)));
        assert((es.len() - 1) as nat == init.len());
    } else {
        assert(es == Seq::<(Seq<u8>, OptionView)>::empty());
    }
}

/// Decoding the serialization of a valid header gives that header back.
pub proof fn header_round_trip(h: HeaderView)
    requires
        header_valid(h),
        header_fits(h),
    ensures
        decode_header(enc_header(h)) == Some(h),
{
    let b = enc_header(h);
    let s1 = enc_u64(h.options.len());
    let s2 = enc_entries(h.options);
    lemma_auto_spec_u64_to_from_le_bytes();
    assert(holds_at(b, 0, b)) by {
        assert(b.subrange(0, b.len() as int) == b);
    }
    lemma_holds_split(b, 0, s1 + s2, h.nonce);
    lemma_holds_split(b, 0, s1, s2);
    lemma_parse_u64(b, 0, h.options.len());
    lemma_parse_entries(b, 8, h.options);
}

} // verus!
