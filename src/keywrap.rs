//! Wrapping the primary key under each option: the factors' keys, in order
//! and without separators, are run through Argon2 with the option's salt, and
//! the result seals the primary key with ChaCha20-Poly1305.
use crate::codec::OptionView;
use crate::crypto::{aead_decrypt, aead_encrypt, aead_seal, argon2_derive, argon2_key, random_bytes};
use crate::error::{decrypts_to, EnvelopeError};
use crate::header::{factors_view, FactorRef, OptionData};
use vstd::prelude::*;

verus! {

pub open spec fn keys_view(keys: Seq<Vec<u8>>) -> Seq<Seq<u8>> {
    keys.map_values(|k: Vec<u8>| k@)
}

/// The factors' keys joined in order, with nothing between them.
pub open spec fn concat_keys(keys: Seq<Seq<u8>>) -> Seq<u8>
    decreases keys.len(),
{
    if keys.len() == 0 {
        Seq::empty()
    } else {
        concat_keys(keys.drop_last()) + keys.last()
    }
}

/// The key that wraps the primary key under an option.
pub open spec fn wrap_key(keys: Seq<Seq<u8>>, salt: Seq<u8>) -> Seq<u8> {
    argon2_key(concat_keys(keys), salt)
}

/// The option, given these factor keys, unwraps to `primary_key`.
pub open spec fn option_opens_to(o: OptionView, keys: Seq<Seq<u8>>, primary_key: Seq<u8>) -> bool {
    o.primary_key_ciphertext == aead_seal(wrap_key(keys, o.salt), o.primary_key_nonce, primary_key)
}

/// Joins the factors' keys in order.
pub fn concat_factor_keys(keys: &Vec<Vec<u8>>) -> (r: Vec<u8>)
    ensures
        r@ == concat_keys(keys_view(keys@)),
{
    let mut out: Vec<u8> = Vec::new();
    let mut i: usize = 0;
    let ghost kv = keys_view(keys@);
    while i < keys.len()
        invariant
            i <= keys@.len(),
            kv == keys_view(keys@),
            out@ == concat_keys(kv.take(i as int)),
        decreases keys@.len() - i,
    {
        assert(kv.take(i + 1).drop_last() == kv.take(i as int));
        assert(kv.take(i + 1).last() == keys@[i as int]@);
        let mut k = vstd::slice::slice_to_vec(keys[i].as_slice());
        out.append(&mut k);
        i = i + 1;
    }
    assert(kv.take(i as int) == kv);
    out
}

/// The option that seals `primary_key` for these factors, with the salt and
/// nonce given. It fails only when the joined keys exceed Argon2's password
/// limit (`u32::MAX` bytes).
pub fn seal_option(
    primary_key: &[u8],
    factors: Vec<FactorRef>,
    keys: &Vec<Vec<u8>>,
    salt: Vec<u8>,
    nonce: Vec<u8>,
) -> (r: Result<OptionData, EnvelopeError>)
    requires
        primary_key@.len() == 32,
        salt@.len() == 32,
        nonce@.len() == 12,
    ensures
        r matches Ok(o) ==> o@ == (OptionView {
            salt: salt@,
            factors: factors_view(factors@),
            primary_key_nonce: nonce@,
            primary_key_ciphertext: aead_seal(
                wrap_key(keys_view(keys@), salt@),
                nonce@,
                primary_key@,
            ),
        }) && option_opens_to(o@, keys_view(keys@), primary_key@)
            && o@.primary_key_ciphertext.len() == 48,
        r is Err <==> concat_keys(keys_view(keys@)).len() > 0xFFFF_FFFF,
        r matches Err(e) ==> e == EnvelopeError::InvalidConfiguration,
{
    let total = concat_factor_keys(keys);
    if total.len() > 0xFFFF_FFFF {
        return Err(EnvelopeError::InvalidConfiguration);
    }
    let wrap = match argon2_derive(total.as_slice(), salt.as_slice()) {
        Some(k) => k,
        None => {
            proof {
                assert(false);
            }
            return Err(EnvelopeError::InvalidConfiguration);
        },
    };
    let ct = match aead_encrypt(wrap.as_slice(), nonce.as_slice(), primary_key) {
        Some(c) => c,
        None => {
            proof {
                assert(false);
            }
            return Err(EnvelopeError::InvalidConfiguration);
        },
    };
    Ok(OptionData { salt, factors, primary_key_nonce: nonce, primary_key_ciphertext: ct })
}

/// Builds an option for these factors (with their keys, in the same order),
/// drawing a fresh salt and nonce. Fails with `InvalidConfiguration` without
/// factors or when the joined keys exceed `u32::MAX` bytes, and with
/// `IoError` when the random number generator fails.
pub fn create_option(primary_key: &[u8], factors: Vec<FactorRef>, keys: &Vec<Vec<u8>>) -> (r: Result<
    OptionData,
    EnvelopeError,
>)
    requires
        primary_key@.len() == 32,
    ensures
        r matches Ok(o) ==> o@.factors == factors_view(factors@) && o@.salt.len() == 32
            && o@.primary_key_nonce.len() == 12 && option_opens_to(
            o@,
            keys_view(keys@),
            primary_key@,
        ) && o@.primary_key_ciphertext.len() == 48,
        factors@.len() == 0 || concat_keys(keys_view(keys@)).len() > 0xFFFF_FFFF ==> r
            == Err::<OptionData, EnvelopeError>(EnvelopeError::InvalidConfiguration),
        r matches Err(e) && e == EnvelopeError::InvalidConfiguration ==> factors@.len() == 0
            || concat_keys(keys_view(keys@)).len() > 0xFFFF_FFFF,
        r matches Err(e) ==> e == EnvelopeError::InvalidConfiguration || e == EnvelopeError::IoError,
{
    if factors.len() == 0 {
        return Err(EnvelopeError::InvalidConfiguration);
    }
    let salt = match random_bytes(32) {
        Some(s) => s,
        None => {
            if concat_factor_keys(keys).len() > 0xFFFF_FFFF {
                return Err(EnvelopeError::InvalidConfiguration);
            }
            return Err(EnvelopeError::IoError);
        },
    };
    let nonce = match random_bytes(12) {
        Some(n) => n,
        None => {
            if concat_factor_keys(keys).len() > 0xFFFF_FFFF {
                return Err(EnvelopeError::InvalidConfiguration);
            }
            return Err(EnvelopeError::IoError);
        },
    };
    seal_option(primary_key, factors, keys, salt, nonce)
}

/// Unwraps the primary key from an option given its factors' keys.
pub fn open_option(o: &OptionData, keys: &Vec<Vec<u8>>) -> (r: Result<Vec<u8>, EnvelopeError>)
    requires
        o@.salt.len() == 32,
        o@.primary_key_nonce.len() == 12,
    ensures
        r matches Ok(pk) ==> pk@.len() == 32 && option_opens_to(o@, keys_view(keys@), pk@),
        r matches Err(e) ==> e == EnvelopeError::DecryptionFailed,
        forall|pk: Seq<u8>| decrypts_to(r, pk) <== pk.len() == 32 && concat_keys(keys_view(keys@)).len() <= 0xFFFF_FFFF && #[trigger] option_opens_to(o@, keys_view(keys@), pk),
{
    let total = concat_factor_keys(keys);
    let wrap = match argon2_derive(total.as_slice(), o.salt.as_slice()) {
        Some(k) => k,
        None => return Err(EnvelopeError::DecryptionFailed),
    };
    match aead_decrypt(wrap.as_slice(), o.primary_key_nonce.as_slice(), o.primary_key_ciphertext.as_slice()) {
        Some(pk) => {
            if pk.len() != 32 {
                return Err(EnvelopeError::DecryptionFailed);
            }
            Ok(pk)
        },
        None => Err(EnvelopeError::DecryptionFailed),
    }
}

/// Draws a fresh primary key (32 bytes) and stream nonce (7 bytes) for a
/// new file.
pub fn fresh_secrets() -> (r: Result<(Vec<u8>, Vec<u8>), EnvelopeError>)
    ensures
        r matches Ok((k, n)) ==> k@.len() == 32 && n@.len() == 7,
        r matches Err(e) ==> e == EnvelopeError::IoError,
{
    let key = match random_bytes(32) {
        Some(k) => k,
        None => return Err(EnvelopeError::IoError),
    };
    let nonce = match random_bytes(7) {
        Some(n) => n,
        None => return Err(EnvelopeError::IoError),
    };
    Ok((key, nonce))
}

} // verus!
