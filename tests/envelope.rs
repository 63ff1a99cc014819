use cyst::error::EnvelopeError;
use cyst::factors::{get_factors, FactorKind};
use cyst::header::{FactorRef, Header, NamedOption, OptionRequest};
use cyst::keywrap::{create_option, fresh_secrets};
use cyst::stream::StreamDecryptor;

fn factor(kind: FactorKind, data: Vec<u8>) -> FactorRef {
    FactorRef { name: kind.name(), data }
}

fn option(pk: &[u8], name: &str, factors: Vec<FactorRef>, keys: Vec<Vec<u8>>) -> NamedOption {
    let data = create_option(pk, factors, &keys).unwrap();
    NamedOption { name: name.as_bytes().to_vec(), data }
}

fn index_of(h: &Header, name: &str) -> usize {
    (0..h.option_count()).find(|&i| h.option(i).name == name.as_bytes()).unwrap()
}

fn decrypt(file: &[u8], name: &str, keys: Vec<Vec<u8>>) -> Result<Vec<u8>, EnvelopeError> {
    let (h, off) = Header::split_file(file)?;
    let i = index_of(&h, name);
    h.check_factors(i, &get_factors())?;
    h.open_payload(i, &keys, &file[off..])
}

fn passphrase_file(payload: &[u8], pass: &str) -> (Vec<u8>, usize) {
    let (pk, nonce) = fresh_secrets().unwrap();
    let o = option(
        &pk,
        "pw",
        vec![factor(FactorKind::Passphrase, vec![])],
        vec![pass.as_bytes().to_vec()],
    );
    let h = Header::from_options(vec![o], nonce).unwrap();
    let header_len = h.serialize().len();
    (h.encrypt(&pk, payload), header_len)
}

#[test]
fn single_passphrase_tiny_payload() {
    let (file, _) = passphrase_file(b"hello", "correct horse");
    assert_eq!(decrypt(&file, "pw", vec![b"correct horse".to_vec()]).unwrap(), b"hello");
    assert_eq!(
        decrypt(&file, "pw", vec![b"wrong".to_vec()]),
        Err(EnvelopeError::DecryptionFailed)
    );
}

#[test]
fn two_options_choose_either() {
    let (pk, nonce) = fresh_secrets().unwrap();
    let keyfile = vec![7u8; 32];
    let pw = option(
        &pk,
        "pw",
        vec![factor(FactorKind::Passphrase, vec![])],
        vec![b"s3cret".to_vec()],
    );
    let kf = option(
        &pk,
        "kf",
        vec![factor(FactorKind::Keyfile, vec![])],
        vec![keyfile.clone()],
    );
    let h = Header::from_options(vec![pw, kf], nonce).unwrap();
    let file = h.encrypt(&pk, b"abc");
    assert_eq!(decrypt(&file, "pw", vec![b"s3cret".to_vec()]).unwrap(), b"abc");
    assert_eq!(decrypt(&file, "kf", vec![keyfile]).unwrap(), b"abc");
    assert_eq!(
        decrypt(&file, "pw", vec![b"wrong".to_vec()]),
        Err(EnvelopeError::DecryptionFailed)
    );
}

#[test]
fn two_factor_option() {
    let (pk, nonce) = fresh_secrets().unwrap();
    let keyfile = vec![9u8; 32];
    let o = option(
        &pk,
        "hw+pin",
        vec![
            factor(FactorKind::Keyfile, vec![]),
            factor(FactorKind::Passphrase, vec![]),
        ],
        vec![keyfile.clone(), b"1234".to_vec()],
    );
    let h = Header::from_options(vec![o], nonce).unwrap();
    assert_eq!(h.option(0).data.factors.len(), 2);
    let file = h.encrypt(&pk, b"two factors");
    assert_eq!(
        decrypt(&file, "hw+pin", vec![keyfile.clone(), b"1234".to_vec()]).unwrap(),
        b"two factors"
    );
    assert_eq!(
        decrypt(&file, "hw+pin", vec![keyfile.clone()]),
        Err(EnvelopeError::DecryptionFailed)
    );
    assert_eq!(
        decrypt(&file, "hw+pin", vec![b"1234".to_vec(), keyfile]),
        Err(EnvelopeError::DecryptionFailed)
    );
}

#[test]
fn chunk_boundary_single_last_chunk() {
    let payload = vec![0u8; 4096];
    let (file, header_len) = passphrase_file(&payload, "p");
    assert_eq!(file.len(), header_len + 8 + 4096 + 16);
    assert_eq!(decrypt(&file, "pw", vec![b"p".to_vec()]).unwrap(), payload);
}

#[test]
fn chunk_boundary_lengths() {
    for k in 0..4usize {
        let payload = vec![1u8; 4096 * k];
        let (file, header_len) = passphrase_file(&payload, "p");
        let expected = if k == 0 { 16 } else { k * (4096 + 16) };
        assert_eq!(file.len(), header_len + 8 + expected);
        assert_eq!(decrypt(&file, "pw", vec![b"p".to_vec()]).unwrap(), payload);
    }
}

#[test]
fn round_trip_edge_lengths() {
    for n in [0usize, 1, 4095, 4096, 4097, 1 << 20] {
        let payload: Vec<u8> = (0..n).map(|i| (i * 31 + 7) as u8).collect();
        let (file, _) = passphrase_file(&payload, "edge");
        assert_eq!(decrypt(&file, "pw", vec![b"edge".to_vec()]).unwrap(), payload);
    }
}

#[test]
fn large_payload() {
    let mut x: u64 = 0x9E37_79B9_7F4A_7C15;
    let payload: Vec<u8> = (0..10 * 1024 * 1024)
        .map(|_| {
            x ^= x << 13;
            x ^= x >> 7;
            x ^= x << 17;
            x as u8
        })
        .collect();
    let (file, _) = passphrase_file(&payload, "big");
    assert_eq!(decrypt(&file, "pw", vec![b"big".to_vec()]).unwrap(), payload);
}

#[test]
fn tamper_fails_after_prefix() {
    let payload: Vec<u8> = (0..3 * 4096).map(|i| (i % 251) as u8).collect();
    let (pk, nonce) = fresh_secrets().unwrap();
    let o = option(
        &pk,
        "pw",
        vec![factor(FactorKind::Passphrase, vec![])],
        vec![b"t".to_vec()],
    );
    let h = Header::from_options(vec![o], nonce.clone()).unwrap();
    let header_len = h.serialize().len();
    let mut file = h.encrypt(&pk, &payload);
    file[header_len + 8 + 5000] ^= 0x01;
    assert_eq!(
        decrypt(&file, "pw", vec![b"t".to_vec()]),
        Err(EnvelopeError::DecryptionFailed)
    );
    // Streaming: the first segment still opens, the corrupted second does not.
    let ct = &file[header_len + 8..];
    let mut d = StreamDecryptor::new(&pk, &nonce);
    assert_eq!(d.decrypt_next(&ct[..4112]).unwrap(), payload[..4096].to_vec());
    assert_eq!(
        d.decrypt_next(&ct[4112..8224]),
        Err(EnvelopeError::DecryptionFailed)
    );
}

#[test]
fn tamper_primary_key_ciphertext() {
    let (pk, nonce) = fresh_secrets().unwrap();
    let mut o = option(
        &pk,
        "pw",
        vec![factor(FactorKind::Passphrase, vec![])],
        vec![b"k".to_vec()],
    );
    o.data.primary_key_ciphertext[3] ^= 0x80;
    let h = Header::from_options(vec![o], nonce).unwrap();
    assert_eq!(
        h.unwrap_primary_key(0, &vec![b"k".to_vec()]),
        Err(EnvelopeError::DecryptionFailed)
    );
}

#[test]
fn tamper_stream_nonce() {
    let (pk, mut nonce) = fresh_secrets().unwrap();
    let ct = cyst::stream::encrypt_payload(&pk, &nonce, b"payload");
    nonce[0] ^= 0x04;
    assert_eq!(
        cyst::stream::decrypt_payload(&pk, &nonce, &ct),
        Err(EnvelopeError::DecryptionFailed)
    );
}

#[test]
fn unknown_factor_rejected() {
    let (pk, nonce) = fresh_secrets().unwrap();
    let o = option(
        &pk,
        "odd",
        vec![
            factor(FactorKind::Passphrase, vec![]),
            FactorRef { name: b"X".to_vec(), data: vec![] },
        ],
        vec![b"a".to_vec(), b"b".to_vec()],
    );
    let h = Header::from_options(vec![o], nonce).unwrap();
    assert_eq!(
        h.check_factors(0, &get_factors()),
        Err(EnvelopeError::UnknownFactor(b"X".to_vec()))
    );
}

#[test]
fn primary_key_shared_across_options() {
    let (pk, nonce) = fresh_secrets().unwrap();
    let a = option(&pk, "a", vec![factor(FactorKind::Passphrase, vec![])], vec![b"1".to_vec()]);
    let b = option(&pk, "b", vec![factor(FactorKind::Passphrase, vec![])], vec![b"2".to_vec()]);
    let h = Header::from_options(vec![a, b], nonce).unwrap();
    assert_eq!(h.unwrap_primary_key(0, &vec![b"1".to_vec()]).unwrap(), pk);
    assert_eq!(h.unwrap_primary_key(1, &vec![b"2".to_vec()]).unwrap(), pk);
    assert!(h.to_decryptor(0, &get_factors(), &vec![b"1".to_vec()]).is_ok());
}

#[test]
fn streaming_matches_whole_payload() {
    let (pk, nonce) = fresh_secrets().unwrap();
    let payload: Vec<u8> = (0..9000).map(|i| i as u8).collect();
    let whole = cyst::stream::encrypt_payload(&pk, &nonce, &payload);
    let mut e = cyst::stream::StreamEncryptor::new(&pk, &nonce);
    let mut pieces = e.encrypt_next(&payload[..4096]).unwrap();
    pieces.extend(e.encrypt_next(&payload[4096..8192]).unwrap());
    pieces.extend(e.encrypt_last(&payload[8192..]));
    assert_eq!(pieces, whole);
    assert_eq!(cyst::stream::next_plain_chunk(5000), (4096, false));
    assert_eq!(cyst::stream::next_plain_chunk(4096), (4096, true));
    assert_eq!(cyst::stream::next_plain_chunk(0), (0, true));
    assert_eq!(cyst::stream::next_cipher_segment(4113), (4112, false));
    assert_eq!(cyst::stream::next_cipher_segment(4112), (4112, true));
}

#[test]
fn truncated_ciphertext_fails() {
    let payload = vec![5u8; 8192 + 10];
    let (file, _) = passphrase_file(&payload, "p");
    let cut = &file[..file.len() - 26];
    assert_eq!(
        decrypt(cut, "pw", vec![b"p".to_vec()]),
        Err(EnvelopeError::DecryptionFailed)
    );
}

#[test]
fn fresh_secrets_differ() {
    let (k1, n1) = fresh_secrets().unwrap();
    let (k2, n2) = fresh_secrets().unwrap();
    assert_eq!((k1.len(), n1.len()), (32, 7));
    assert!(k1 != k2 || n1 != n2);
    assert_ne!(k1, vec![0u8; 32]);
}

#[test]
fn new_header_seals_one_key_under_every_option() {
    let (pk, nonce) = fresh_secrets().unwrap();
    let requests = vec![
        OptionRequest {
            name: b"pw".to_vec(),
            factors: vec![factor(FactorKind::Passphrase, vec![])],
            keys: vec![b"s3cret".to_vec()],
        },
        OptionRequest {
            name: b"hw+pin".to_vec(),
            factors: vec![factor(FactorKind::Keyfile, vec![]), factor(FactorKind::Passphrase, vec![])],
            keys: vec![vec![1u8; 32], b"0000".to_vec()],
        },
    ];
    let h = Header::new(&pk, nonce.clone(), requests).unwrap();
    assert_eq!(h.option_count(), 2);
    for i in 0..2 {
        assert_eq!(h.option(i).data.primary_key_ciphertext.len(), 48);
        assert_eq!(h.option(i).data.salt.len(), 32);
    }
    let reg = get_factors();
    assert_eq!(h.unwrap_primary_key(0, &vec![b"s3cret".to_vec()]).unwrap(), pk);
    assert_eq!(
        h.unwrap_primary_key(1, &vec![vec![1u8; 32], b"0000".to_vec()]).unwrap(),
        pk
    );
    let file = h.encrypt(&pk, b"shared");
    assert_eq!(decrypt(&file, "hw+pin", vec![vec![1u8; 32], b"0000".to_vec()]).unwrap(), b"shared");
    assert!(h.to_decryptor(1, &reg, &vec![vec![1u8; 32], b"0000".to_vec()]).is_ok());
    let dup = vec![
        OptionRequest { name: b"a".to_vec(), factors: vec![factor(FactorKind::Passphrase, vec![])], keys: vec![] },
        OptionRequest { name: b"a".to_vec(), factors: vec![factor(FactorKind::Passphrase, vec![])], keys: vec![] },
    ];
    assert_eq!(Header::new(&pk, nonce.clone(), dup).err(), Some(EnvelopeError::InvalidConfiguration));
    assert_eq!(Header::new(&pk, nonce, vec![]).err(), Some(EnvelopeError::InvalidConfiguration));
}

#[test]
fn to_decryptor_names_unknown_factor() {
    let (pk, nonce) = fresh_secrets().unwrap();
    let o = option(
        &pk,
        "odd",
        vec![FactorRef { name: b"X".to_vec(), data: vec![] }],
        vec![b"a".to_vec()],
    );
    let h = Header::from_options(vec![o], nonce).unwrap();
    assert_eq!(
        h.to_decryptor(0, &get_factors(), &vec![b"a".to_vec()]).err(),
        Some(EnvelopeError::UnknownFactor(b"X".to_vec()))
    );
}
