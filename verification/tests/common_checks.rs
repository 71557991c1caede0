use btclib::cbor::encode;
use btclib::crypto::{PrivateKey, PublicKey, Signature};
use btclib::time::Timestamp;
use btclib::types::TransactionOutput;

fn hex_of(bytes: &[u8]) -> String {
    let mut s = String::new();
    for b in bytes {
        s.push_str(&format!("{:02x}", b));
    }
    s
}

#[test]
fn hash_of_hello_is_the_sha256_digest_read_from_the_low_end() {
    let h = btclib::sha256::Hash::hash(b"hello").unwrap();
    assert_eq!(
        hex_of(&h.as_bytes()),
        "2cf24dba5fb0a30e26e83b2ac5b9e29e1b161e5c1fa7425e73043362938b9824"
    );
    // The first digest byte is the least significant one.
    assert_eq!(h.0.w0 & 0xff, 0x2c);
    assert_eq!(h.0.w3 >> 56, 0x24);
}

#[test]
fn a_signature_verifies_under_its_own_key_only() {
    let mut key = PrivateKey::new_key();
    let mut other = PrivateKey::new_key();
    let public = key.public_key();
    let other_public = other.public_key();
    let h = btclib::sha256::Hash::hash(b"an output").unwrap();
    let signature = Signature::sign_output(&h, &mut key).unwrap();
    assert_eq!(signature.0.len(), 64);
    assert!(signature.verify(&h, &public));
    assert!(!signature.verify(&h, &other_public));
    let h2 = btclib::sha256::Hash::hash(b"another output").unwrap();
    assert!(!signature.verify(&h2, &public));
    let by_other = Signature::sign_output(&h, &mut other).unwrap();
    assert!(by_other.verify(&h, &other_public));
}

#[test]
fn bytes_that_are_no_scalar_make_no_private_key() {
    // Zero, the order of the curve and what lies above it are no scalars.
    assert!(PrivateKey::from_bytes(&[0u8; 32]).is_none());
    assert!(PrivateKey::from_bytes(&[255u8; 32]).is_none());
    let order: [u8; 32] = [
        0xff, 0xff, 0xff, 0xff, 0xff, 0xff, 0xff, 0xff, 0xff, 0xff, 0xff, 0xff, 0xff, 0xff, 0xff,
        0xfe, 0xba, 0xae, 0xdc, 0xe6, 0xaf, 0x48, 0xa0, 0x3b, 0xbf, 0xd2, 0x5e, 0x8c, 0xd0, 0x36,
        0x41, 0x41,
    ];
    assert!(PrivateKey::from_bytes(&order).is_none());
    assert!(PrivateKey::from_bytes(&[]).is_none());
    assert!(PrivateKey::from_bytes(&[1u8; 33]).is_none());
    let mut below = order;
    below[31] = 0x40;
    assert!(PrivateKey::from_bytes(&below).is_some());
    let mut one = [0u8; 32];
    one[31] = 1;
    let key = PrivateKey::from_bytes(&one).unwrap();
    assert_eq!(key.to_bytes(), one.to_vec());
    // Every key has its public key, and the same bytes give the same one.
    assert_eq!(key.public_key(), PrivateKey::from_bytes(&one).unwrap().public_key());
    assert_ne!(key.public_key(), PrivateKey::from_bytes(&below).unwrap().public_key());
    for _ in 0..20 {
        let fresh = PrivateKey::new_key();
        assert_eq!(fresh.to_bytes().len(), 32);
        assert!(PrivateKey::from_bytes(&fresh.to_bytes()).is_some());
        assert!(fresh.public_key().to_pem().is_some());
    }
}

#[test]
fn bytes_that_are_no_key_verify_nothing() {
    let h = btclib::sha256::Hash::zero();
    let garbage = PublicKey(vec![1, 2, 3]);
    assert!(!Signature(vec![0u8; 64]).verify(&h, &garbage));
    assert!(garbage.to_pem().is_none());
}

#[test]
fn a_public_key_survives_its_pem_text() {
    let key = PrivateKey::new_key().public_key();
    let pem = key.to_pem().unwrap();
    assert!(pem.starts_with("-----BEGIN PUBLIC KEY-----\n"));
    assert!(pem.ends_with("-----END PUBLIC KEY-----\n"));
    assert!(!pem.contains('\r'));
    let back = PublicKey::from_pem(&pem).unwrap();
    assert_eq!(back, key);
    assert!(PublicKey::from_pem("no key here").is_none());
}

#[test]
fn timestamp_text_is_rfc3339() {
    let t = Timestamp::new(1_700_000_000, 0).unwrap();
    assert_eq!(t.text(), b"2023-11-14T22:13:20Z".to_vec());
    let t = Timestamp::new(1_700_000_000, 120_000_000).unwrap();
    assert_eq!(t.text(), b"2023-11-14T22:13:20.120Z".to_vec());
    let t = Timestamp::new(0, 1).unwrap();
    assert_eq!(t.text(), b"1970-01-01T00:00:00.000000001Z".to_vec());
    assert!(Timestamp::new(0, 1_000_000_000).is_none());
    assert!(Timestamp::new(i64::MAX, 0).is_none());
}

#[test]
fn an_output_is_written_as_a_map_of_its_fields() {
    let output = TransactionOutput { value: 7, unique_id: [9u8; 16], pubkey: PublicKey(vec![1, 200]) };
    let bytes = encode(&output.to_item());
    let mut expected = vec![0xa3u8];
    expected.extend_from_slice(&[0x65]);
    expected.extend_from_slice(b"value");
    expected.push(0x07);
    expected.extend_from_slice(&[0x69]);
    expected.extend_from_slice(b"unique_id");
    expected.push(0x50);
    expected.extend_from_slice(&[9u8; 16]);
    expected.extend_from_slice(&[0x66]);
    expected.extend_from_slice(b"pubkey");
    expected.extend_from_slice(&[0x82, 0x01, 0x18, 200]);
    assert_eq!(bytes, expected);
}
