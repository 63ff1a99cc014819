//! The cryptographic primitives the envelope is built from: Argon2 for key
//! derivation, ChaCha20-Poly1305 for wrapping keys, its STREAM construction
//! (big-endian 32-bit counter) for payloads, and the operating system's random
//! number generator.
use chacha20poly1305::aead::generic_array::GenericArray;
use chacha20poly1305::aead::stream::{NewStream, StreamBE32, StreamPrimitive};
use chacha20poly1305::aead::Aead;
use chacha20poly1305::{ChaCha20Poly1305, KeyInit};
use rand::RngCore;
use vstd::prelude::*;

verus! {

/// Length of the authentication tag appended to every AEAD ciphertext.
pub const TAG_LEN: usize = 16;

/// The Argon2 output (default parameters, 32 bytes) for a password and a salt.
pub uninterp spec fn argon2_key(password: Seq<u8>, salt: Seq<u8>) -> Seq<u8>;

/// The ChaCha20-Poly1305 ciphertext (tag appended, no associated data) of a
/// plaintext under a key and a 12-byte nonce.
pub uninterp spec fn aead_seal(key: Seq<u8>, nonce: Seq<u8>, plaintext: Seq<u8>) -> Seq<u8>;

/// The STREAM-BE32 ciphertext of one segment: key, 7-byte nonce prefix,
/// segment position and the "last segment" flag.
pub uninterp spec fn stream_seal(
    key: Seq<u8>,
    nonce: Seq<u8>,
    position: u32,
    last: bool,
    plaintext: Seq<u8>,
) -> Seq<u8>;

/// Whether a decryption result is the plaintext `p`.
pub open spec fn opens_to(r: Option<Vec<u8>>, p: Seq<u8>) -> bool {
    r matches Some(q) && q@ == p
}

/// Relies on rand's `OsRng::try_fill_bytes`: on success, `n` bytes from the
/// operating system's generator; it fails only when the generator does.
#[verifier::external_body]
pub(crate) fn random_bytes(n: usize) -> (r: Option<Vec<u8>>)
    ensures
        r matches Some(v) ==> v@.len() == n,
{
    let mut v = vec![0u8; n];
    match rand::rngs::OsRng.try_fill_bytes(&mut v) {
        Ok(()) => Some(v),
        Err(_) => None,
    }
}

/// Relies on argon2's `Argon2::default().hash_password_into` with a 32-byte
/// output: it fails only on a password over `u32::MAX` bytes or a salt outside
/// 8 ..= `u32::MAX` bytes.
#[verifier::external_body]
pub(crate) fn argon2_derive(password: &[u8], salt: &[u8]) -> (r: Option<Vec<u8>>)
    ensures
        r matches Some(k) ==> k@ == argon2_key(password@, salt@) && k@.len() == 32,
        password@.len() <= 0xFFFF_FFFF && 8 <= salt@.len() <= 0xFFFF_FFFF ==> r is Some,
{
    let mut out = [0u8; 32];
    match argon2::Argon2::default().hash_password_into(password, salt, &mut out) {
        Ok(()) => Some(out.to_vec()),
        Err(_) => None,
    }
}

/// Relies on chacha20poly1305's `Aead::encrypt`: the ciphertext is as long as
/// the plaintext plus the 16-byte tag; it fails only on plaintexts of about
/// 256 GiB and more.
#[verifier::external_body]
pub(crate) fn aead_encrypt(key: &[u8], nonce: &[u8], plaintext: &[u8]) -> (r: Option<Vec<u8>>)
    requires
        key@.len() == 32,
        nonce@.len() == 12,
    ensures
        r matches Some(c) ==> c@ == aead_seal(key@, nonce@, plaintext@) && c@.len()
            == plaintext@.len() + 16,
        plaintext@.len() <= 0x1_0000_0000 ==> r is Some,
{
    let cipher = ChaCha20Poly1305::new(GenericArray::from_slice(key));
    cipher.encrypt(GenericArray::from_slice(nonce), plaintext).ok()
}

/// Relies on chacha20poly1305's `Aead::decrypt`: it returns the plaintext
/// whose ciphertext is the input (16 bytes shorter), and fails when the tag
/// does not verify.
#[verifier::external_body]
pub(crate) fn aead_decrypt(key: &[u8], nonce: &[u8], ciphertext: &[u8]) -> (r: Option<Vec<u8>>)
    requires
        key@.len() == 32,
        nonce@.len() == 12,
    ensures
        r matches Some(p) ==> aead_seal(key@, nonce@, p@) == ciphertext@ && p@.len() + 16
            == ciphertext@.len(),
        forall|p: Seq<u8>| opens_to(r, p) <== p.len() <= 0x1_0000_0000 && #[trigger] aead_seal(key@, nonce@, p) == ciphertext@,
{
    let cipher = ChaCha20Poly1305::new(GenericArray::from_slice(key));
    cipher.decrypt(GenericArray::from_slice(nonce), ciphertext).ok()
}

/// Relies on aead's `StreamPrimitive::encrypt` for `StreamBE32<ChaCha20Poly1305>`:
/// one segment sealed at `position`, as long as the plaintext plus the tag.
#[verifier::external_body]
pub(crate) fn stream_encrypt(
    key: &[u8],
    nonce: &[u8],
    position: u32,
    last: bool,
    plaintext: &[u8],
) -> (r: Option<Vec<u8>>)
    requires
        key@.len() == 32,
        nonce@.len() == 7,
    ensures
        r matches Some(c) ==> c@ == stream_seal(key@, nonce@, position, last, plaintext@)
            && c@.len() == plaintext@.len() + 16,
        plaintext@.len() <= 0x1_0000_0000 ==> r is Some,
{
    let cipher = ChaCha20Poly1305::new(GenericArray::from_slice(key));
    let stream = StreamBE32::from_aead(cipher, GenericArray::from_slice(nonce));
    stream.encrypt(position, last, plaintext).ok()
}

/// Relies on aead's `StreamPrimitive::decrypt` for `StreamBE32<ChaCha20Poly1305>`:
/// it returns the plaintext whose segment at `position` is the input (16 bytes
/// shorter), and fails when the tag does not verify.
#[verifier::external_body]
pub(crate) fn stream_decrypt(
    key: &[u8],
    nonce: &[u8],
    position: u32,
    last: bool,
    ciphertext: &[u8],
) -> (r: Option<Vec<u8>>)
    requires
        key@.len() == 32,
        nonce@.len() == 7,
    ensures
        r matches Some(p) ==> stream_seal(key@, nonce@, position, last, p@) == ciphertext@
            && p@.len() + 16 == ciphertext@.len(),
        forall|p: Seq<u8>| opens_to(r, p) <== p.len() <= 0x1_0000_0000 && #[trigger] stream_seal(key@, nonce@, position, last, p) == ciphertext@,
{
    let cipher = ChaCha20Poly1305::new(GenericArray::from_slice(key));
    let stream = StreamBE32::from_aead(cipher, GenericArray::from_slice(nonce));
    stream.decrypt(position, last, ciphertext).ok()
}

} // verus!
