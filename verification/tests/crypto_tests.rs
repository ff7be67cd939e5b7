use impulse_graph_tooling::crypto::{self, CryptoError, HexError};

fn snapshot_bytes() -> Vec<u8> {
    (0u8..100).collect()
}

#[test]
fn hex_encode_is_lower_case_two_digits_per_byte() {
    assert_eq!(crypto::encode(&[0x00, 0x0f, 0xa5, 0xff]), "000fa5ff");
    assert_eq!(crypto::encode(&[]), "");
}

#[test]
fn hex_decode_reads_trimmed_text() {
    assert_eq!(crypto::decode("  00ffA5\n").unwrap(), vec![0x00, 0xff, 0xa5]);
    assert_eq!(crypto::decode("").unwrap(), Vec::<u8>::new());
    assert_eq!(crypto::decode("zz"), Err(HexError::InvalidDigit));
    assert_eq!(crypto::decode("0g"), Err(HexError::InvalidDigit));
}

#[test]
fn hex_round_trip() {
    let bytes: Vec<u8> = (0u8..=255).collect();
    let text = crypto::encode(&bytes);
    assert_eq!(text.len(), 512);
    assert_eq!(crypto::decode(&text).unwrap(), bytes);
}

#[test]
fn keypair_text_is_hex_of_secret_and_public_key() {
    let secret = [7u8; 32];
    let (private_hex, public_hex) = crypto::keypair_hex(&secret);
    assert_eq!(private_hex, "07".repeat(32));
    assert_eq!(public_hex.len(), 64);
    assert_ne!(public_hex, private_hex);
}

#[test]
fn signed_snapshot_verifies() {
    let (private_hex, public_hex) = crypto::keypair_hex(&[42u8; 32]);
    let data = snapshot_bytes();
    let sig = crypto::sign_snapshot(&private_hex, &data).unwrap();
    assert_eq!(sig.len(), 128);
    assert_eq!(crypto::verify_snapshot(&public_hex, &sig, &data), Ok(()));
}

#[test]
fn signature_covers_the_whole_snapshot() {
    let (private_hex, public_hex) = crypto::keypair_hex(&[42u8; 32]);
    let mut data = snapshot_bytes();
    let sig = crypto::sign_snapshot(&private_hex, &data).unwrap();
    assert_eq!(crypto::verify_snapshot(&public_hex, &sig, &data), Ok(()));
    data[80] ^= 0xff;
    assert_eq!(crypto::verify_snapshot(&public_hex, &sig, &data), Err(CryptoError::SignatureMismatch));
    data[80] ^= 0xff;
    data[10] ^= 0xff;
    assert_eq!(crypto::verify_snapshot(&public_hex, &sig, &data), Err(CryptoError::SignatureMismatch));
    data[10] ^= 0xff;
    data.push(0);
    assert_eq!(crypto::verify_snapshot(&public_hex, &sig, &data), Err(CryptoError::SignatureMismatch));
}

#[test]
fn signature_under_another_key_is_refused() {
    let (private_hex, _) = crypto::keypair_hex(&[1u8; 32]);
    let (_, other_public) = crypto::keypair_hex(&[2u8; 32]);
    let data = snapshot_bytes();
    let sig = crypto::sign_snapshot(&private_hex, &data).unwrap();
    assert_eq!(crypto::verify_snapshot(&other_public, &sig, &data), Err(CryptoError::SignatureMismatch));
}

#[test]
fn signing_errors() {
    let data = snapshot_bytes();
    assert_eq!(crypto::sign_snapshot("zz", &data), Err(CryptoError::BadHex));
    assert_eq!(crypto::sign_snapshot("0011", &data), Err(CryptoError::PrivateKeyTooShort));
    let key = "11".repeat(32);
    assert_eq!(crypto::sign_snapshot(&key, &data[..63]), Err(CryptoError::SnapshotTooSmall));
}

#[test]
fn verifying_errors() {
    let (private_hex, public_hex) = crypto::keypair_hex(&[9u8; 32]);
    let data = snapshot_bytes();
    let sig = crypto::sign_snapshot(&private_hex, &data).unwrap();
    assert_eq!(crypto::verify_snapshot("0011", &sig, &data), Err(CryptoError::PublicKeyTooShort));
    assert_eq!(crypto::verify_snapshot("qq", &sig, &data), Err(CryptoError::BadHex));
    assert_eq!(crypto::verify_snapshot(&public_hex, "zz", &data), Err(CryptoError::BadHex));
    assert_eq!(crypto::verify_snapshot(&public_hex, &sig[..100], &data), Err(CryptoError::SignatureTooShort));
    // About half of all y coordinates have no curve point; some small one
    // must be refused as a key.
    let refused = (2u8..60).any(|y| {
        let key = format!("{:02x}{}", y, "00".repeat(31));
        crypto::verify_snapshot(&key, &sig, &data) == Err(CryptoError::InvalidPublicKey)
    });
    assert!(refused);
}

#[test]
fn checking_on_malformed_input_reports_none() {
    let (private_hex, public_hex) = crypto::keypair_hex(&[5u8; 32]);
    let data = snapshot_bytes();
    let sig = crypto::sign_snapshot(&private_hex, &data).unwrap();
    assert_eq!(crypto::try_verify_snapshot(&public_hex, &sig, &data), Some(Ok(())));
    assert_eq!(crypto::try_verify_snapshot("abc", &sig, &data), None);
    assert_eq!(crypto::try_verify_snapshot(&public_hex, "abc", &data), None);
    assert_eq!(crypto::try_verify_snapshot(&public_hex, &sig, &data[..10]), Some(Err(CryptoError::SnapshotTooSmall)));
    assert_eq!(crypto::try_verify_snapshot("0011", "abc", &data[..10]), Some(Err(CryptoError::PublicKeyTooShort)));
}

#[test]
fn raw_public_key_files() {
    let secret = [3u8; 32];
    let (_, public_hex) = crypto::keypair_hex(&secret);
    let public = crypto::decode(&public_hex).unwrap();
    assert_eq!(crypto::check_public_key_file(&public), Ok(()));
    let mut longer = public.clone();
    longer.extend_from_slice(b"trailing");
    assert_eq!(crypto::check_public_key_file(&longer), Ok(()));
    assert_eq!(crypto::check_public_key_file(&public[..31]), Err(CryptoError::PublicKeyTooShort));
}

#[test]
fn hex_text_that_cannot_be_cut_into_pairs() {
    assert_eq!(crypto::try_decode("abc"), None);
    assert_eq!(crypto::try_decode("zz"), Some(Err(HexError::InvalidDigit)));
    assert_eq!(crypto::try_decode(" 0a0b "), Some(Ok(vec![10, 11])));
}
