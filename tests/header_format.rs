use cyst::error::EnvelopeError;
use cyst::header::{FactorRef, Header, NamedOption, OptionData};

fn sample_option(name: &str, tag: u8) -> NamedOption {
    NamedOption {
        name: name.as_bytes().to_vec(),
        data: OptionData {
            salt: vec![tag; 32],
            factors: vec![FactorRef { name: b"Passphrase".to_vec(), data: vec![tag, 1] }],
            primary_key_nonce: vec![tag; 12],
            primary_key_ciphertext: vec![tag; 48],
        },
    }
}

#[test]
fn header_round_trip() {
    let h = Header::from_options(vec![sample_option("a", 1), sample_option("bee", 2)], vec![3; 7]).unwrap();
    let bytes = h.serialize();
    let back = Header::from_bytes(&bytes).unwrap();
    assert_eq!(back.serialize(), bytes);
    assert_eq!(back.option_count(), 2);
    assert_eq!(back.option(1).name, b"bee".to_vec());
    assert_eq!(back.option(1).data.factors[0].data, vec![2, 1]);
    assert_eq!(back.nonce(), &[3u8; 7][..]);
}

#[test]
fn header_exact_layout() {
    let h = Header::from_options(vec![sample_option("a", 1)], vec![3; 7]).unwrap();
    let body = h.serialize();
    let mut expected: Vec<u8> = Vec::new();
    expected.extend(1u64.to_le_bytes());
    expected.extend(1u64.to_le_bytes());
    expected.push(b'a');
    expected.extend([1u8; 32]);
    expected.extend(1u64.to_le_bytes());
    expected.extend(10u64.to_le_bytes());
    expected.extend(b"Passphrase");
    expected.extend(2u64.to_le_bytes());
    expected.extend([1u8, 1]);
    expected.extend([1u8; 12]);
    expected.extend(48u64.to_le_bytes());
    expected.extend([1u8; 48]);
    expected.extend([3u8; 7]);
    assert_eq!(body, expected);
    let framed = h.to_bytes();
    assert_eq!(framed[..8], (body.len() as u64).to_le_bytes());
    assert_eq!(framed[8..], body[..]);
}

#[test]
fn split_file_finds_payload_start() {
    let h = Header::from_options(vec![sample_option("a", 1)], vec![3; 7]).unwrap();
    let mut file = h.to_bytes();
    let n = file.len();
    file.extend([9u8; 20]);
    let (back, off) = Header::split_file(&file).unwrap();
    assert_eq!(off, n);
    assert_eq!(back.serialize(), h.serialize());
}

#[test]
fn malformed_headers_rejected() {
    let h = Header::from_options(vec![sample_option("a", 1)], vec![3; 7]).unwrap();
    let body = h.serialize();
    assert_eq!(
        Header::from_bytes(&body[..body.len() - 1]).err(),
        Some(EnvelopeError::HeaderMalformed)
    );
    let mut longer = body.clone();
    longer.push(0);
    assert_eq!(Header::from_bytes(&longer).err(), Some(EnvelopeError::HeaderMalformed));
    assert_eq!(Header::split_file(&[1, 2, 3]).err(), Some(EnvelopeError::HeaderMalformed));
    let mut oversize = (16u64 * 1024 * 1024 + 1).to_le_bytes().to_vec();
    oversize.extend([0u8; 16]);
    assert_eq!(Header::split_file(&oversize).err(), Some(EnvelopeError::HeaderMalformed));
    let mut truncated = h.to_bytes();
    truncated.truncate(truncated.len() - 2);
    assert_eq!(Header::split_file(&truncated).err(), Some(EnvelopeError::HeaderMalformed));
    // No options at all.
    let mut empty = 0u64.to_le_bytes().to_vec();
    empty.extend([3u8; 7]);
    assert_eq!(Header::from_bytes(&empty).err(), Some(EnvelopeError::HeaderMalformed));
}

#[test]
fn duplicate_option_name_in_file_rejected() {
    let mut body = 2u64.to_le_bytes().to_vec();
    let one = Header::from_options(vec![sample_option("a", 1)], vec![3; 7]).unwrap().serialize();
    let entry = &one[8..one.len() - 7];
    body.extend(entry);
    body.extend(entry);
    body.extend([3u8; 7]);
    assert_eq!(Header::from_bytes(&body).err(), Some(EnvelopeError::HeaderMalformed));
}

#[test]
fn header_len_cap() {
    assert_eq!(Header::header_len(&(16u64 << 20).to_le_bytes()), Ok(16 << 20));
    assert_eq!(
        Header::header_len(&((16u64 << 20) + 1).to_le_bytes()),
        Err(EnvelopeError::HeaderMalformed)
    );
}

#[test]
fn invalid_configurations() {
    let mut no_factors = sample_option("a", 1);
    no_factors.data.factors.clear();
    assert_eq!(
        Header::from_options(vec![no_factors], vec![3; 7]).err(),
        Some(EnvelopeError::InvalidConfiguration)
    );
    assert_eq!(
        Header::from_options(vec![sample_option("", 1)], vec![3; 7]).err(),
        Some(EnvelopeError::InvalidConfiguration)
    );
    assert_eq!(
        Header::from_options(vec![sample_option("a", 1), sample_option("a", 2)], vec![3; 7]).err(),
        Some(EnvelopeError::InvalidConfiguration)
    );
    assert_eq!(Header::from_options(vec![], vec![3; 7]).err(), Some(EnvelopeError::InvalidConfiguration));
    assert_eq!(
        Header::from_options(vec![sample_option("a", 1)], vec![3; 8]).err(),
        Some(EnvelopeError::InvalidConfiguration)
    );
}

#[test]
fn create_option_without_factors_fails() {
    let pk = vec![0u8; 32];
    assert_eq!(
        cyst::keywrap::create_option(&pk, vec![], &vec![]).err(),
        Some(EnvelopeError::InvalidConfiguration)
    );
}

#[test]
fn keys_concatenate_without_separator() {
    let joined = cyst::keywrap::concat_factor_keys(&vec![b"ab".to_vec(), b"c".to_vec()]);
    assert_eq!(joined, b"abc".to_vec());
    let pk = vec![4u8; 32];
    let o = cyst::keywrap::seal_option(
        &pk,
        vec![],
        &vec![b"ab".to_vec(), b"c".to_vec()],
        vec![1; 32],
        vec![2; 12],
    )
    .unwrap();
    assert_eq!(o.primary_key_ciphertext.len(), 48);
    assert_ne!(o.primary_key_ciphertext[..32], pk[..]);
    assert_eq!(
        cyst::keywrap::open_option(&o, &vec![b"a".to_vec(), b"bc".to_vec()]).unwrap(),
        pk
    );
}

#[test]
fn non_utf8_names_rejected() {
    let mut bad_option = sample_option("a", 1);
    bad_option.name = vec![0xff, 0xfe];
    assert_eq!(
        Header::from_options(vec![bad_option], vec![3; 7]).err(),
        Some(EnvelopeError::InvalidConfiguration)
    );
    let mut bad_factor = sample_option("a", 1);
    bad_factor.data.factors[0].name = vec![0xc3];
    assert_eq!(
        Header::from_options(vec![bad_factor], vec![3; 7]).err(),
        Some(EnvelopeError::InvalidConfiguration)
    );
    let good = Header::from_options(vec![sample_option("é", 1)], vec![3; 7]).unwrap();
    let mut body = good.serialize();
    // The name's two bytes follow the count and the name's length.
    body[16] = 0xff;
    assert_eq!(Header::from_bytes(&body).err(), Some(EnvelopeError::HeaderMalformed));
}

#[test]
fn file_reads_back_header_and_payload() {
    let pk = vec![6u8; 32];
    let h = Header::from_options(vec![sample_option("a", 1)], vec![3; 7]).unwrap();
    let payload: Vec<u8> = (0..5000).map(|i| (i % 7) as u8).collect();
    let file = h.encrypt(&pk, &payload);
    let (back, off) = Header::split_file(&file).unwrap();
    assert_eq!(back.serialize(), h.serialize());
    assert_eq!(off, 8 + h.serialize().len());
    assert_eq!(cyst::stream::decrypt_payload(&pk, &[3u8; 7], &file[off..]).unwrap(), payload);
}
