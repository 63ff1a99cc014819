use cyst::error::EnvelopeError;
use cyst::factors::{
    download_url_of, get_factors, EphemeralFactor, EphemeralFactorData, FactorKind,
    KeyfileFactor, ShamirFactor,
};

#[test]
fn registry_holds_every_factor() {
    let reg = get_factors();
    assert_eq!(reg.kinds().len(), 4);
    assert_eq!(reg.lookup(b"Passphrase"), Some(FactorKind::Passphrase));
    assert_eq!(reg.lookup(b"Ephemeral data"), Some(FactorKind::Ephemeral));
    assert_eq!(reg.lookup(b"Shamir secret sharing"), Some(FactorKind::Shamir));
    assert_eq!(reg.lookup(b"Keyfile"), Some(FactorKind::Keyfile));
    assert_eq!(reg.lookup(b"X"), None);
    assert_eq!(FactorKind::Keyfile.name(), "Keyfile".as_bytes().to_vec());
}

#[test]
fn keyfile_length_checked_and_deterministic() {
    let contents = vec![3u8; 32];
    let a = KeyfileFactor::key_from_file(&contents).unwrap();
    let b = KeyfileFactor::key_from_file(&contents).unwrap();
    assert_eq!(a, b);
    assert_eq!(a, contents);
    assert!(matches!(
        KeyfileFactor::key_from_file(&[1u8; 31]),
        Err(EnvelopeError::FactorFailed(n, _)) if n == b"Keyfile".to_vec()
    ));
}

#[test]
fn shamir_split_and_combine() {
    let secret: Vec<u8> = (0..64).collect();
    let (data, shares) = ShamirFactor::split(&secret, 5, 3).unwrap();
    assert_eq!(data, vec![3]);
    assert_eq!(ShamirFactor::decode_data(&data), Ok(3));
    assert_eq!(shares.len(), 5);
    assert!(shares.iter().all(|s| s.len() == 226));
    let chosen: Vec<Vec<u8>> = vec![
        shares[0].clone(),
        shares[2].to_ascii_uppercase(),
        shares[4].clone(),
    ];
    assert_eq!(ShamirFactor::combine(&chosen).unwrap(), secret);
    assert_eq!(ShamirFactor::combine(&chosen).unwrap(), ShamirFactor::combine(&chosen).unwrap());
    assert!(shares.iter().all(|s| s.iter().all(|c| c.is_ascii_hexdigit() && !c.is_ascii_uppercase())));
    let more: Vec<Vec<u8>> = vec![shares[4].clone(), shares[1].clone(), shares[3].clone(), shares[0].clone()];
    assert_eq!(ShamirFactor::combine(&more).unwrap(), secret);
    let too_few = chosen[..2].to_vec();
    assert!(ShamirFactor::combine(&too_few).is_err());
    assert!(ShamirFactor::combine(&vec![b"zz".to_vec()]).is_err());
    assert!(ShamirFactor::split(&secret, 2, 3).is_err());
    assert!(ShamirFactor::split(&secret, 0, 0).is_err());
    assert!(ShamirFactor::decode_data(&[]).is_err());
}

#[test]
fn ephemeral_url_from_upload_answer() {
    let body = b"https://oshi.at/a/admin [Admin]\n\n https://oshi.at/abc/file.bin  [Download]\r\nhttp://onion/abc [Tor]\n";
    assert_eq!(download_url_of(body), Some(b"https://oshi.at/abc/file.bin".to_vec()));
    let d = EphemeralFactor::data_from_upload(200, body).unwrap();
    assert_eq!(d.url, b"https://oshi.at/abc/file.bin".to_vec());
    assert!(EphemeralFactor::data_from_upload(500, body).is_err());
    assert_eq!(download_url_of(b"one\ntwo\n"), None);
    assert_eq!(download_url_of(b"a\nb\nc\nd"), None);
}

#[test]
fn ephemeral_data_round_trip() {
    let d = EphemeralFactorData { url: b"https://x/y".to_vec() };
    let bytes = d.encode();
    assert_eq!(bytes[..8], 11u64.to_le_bytes());
    assert_eq!(EphemeralFactorData::decode(&bytes).unwrap().url, d.url);
    assert!(EphemeralFactorData::decode(&bytes[..10]).is_err());
}

#[test]
fn ephemeral_download_key() {
    let body: Vec<u8> = (0..40).collect();
    assert_eq!(EphemeralFactor::key_from_download(200, &body).unwrap(), body[..32].to_vec());
    assert!(EphemeralFactor::key_from_download(404, &body).is_err());
    assert!(EphemeralFactor::key_from_download(200, &body[..31]).is_err());
}

#[test]
fn ephemeral_answer_with_unicode_white_space() {
    let body = "a\n\u{00A0}\nb\nc";
    assert_eq!(download_url_of(body.as_bytes()), Some(b"b".to_vec()));
    let body = "x\n\u{3000}https://h/f\u{2003}[Download]\ny";
    assert_eq!(download_url_of(body.as_bytes()), Some(b"https://h/f".to_vec()));
    let body = "x\n\u{200B}y\nz";
    assert_eq!(download_url_of(body.as_bytes()), Some("\u{200B}y".as_bytes().to_vec()));
}
