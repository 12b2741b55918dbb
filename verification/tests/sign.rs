use octo::sign::{encode_signature, sign, verify, SIGNATURE_HEADER};

#[test]
fn sign_then_verify_roundtrips() {
    let secret = b"shh-secret";
    let body = br#"{"event":"deposit.created","amount":"5"}"#;
    let sig = sign(secret, body);
    assert!(verify(secret, body, &sig));
}

#[test]
fn tampered_body_fails_verification() {
    let secret = b"shh-secret";
    let sig = sign(secret, b"original");
    assert!(!verify(secret, b"tampered", &sig));
}

#[test]
fn wrong_secret_fails_verification() {
    let sig = sign(b"key-a", b"body");
    assert!(!verify(b"key-b", b"body", &sig));
}

#[test]
fn garbage_signature_is_rejected() {
    assert!(!verify(b"k", b"body", "not-hex"));
    assert!(!verify(b"k", b"body", "00"));
}

#[test]
fn verify_rejects_signatures_differing_only_in_last_byte() {
    let secret = b"shh-secret";
    let body = b"payload";
    let sig = sign(secret, body);

    let mut bytes = hex::decode(&sig).expect("valid hex");
    let last = bytes.len() - 1;
    bytes[last] ^= 0xFF;
    let tampered = hex::encode(bytes);

    assert_ne!(tampered, sig);
    assert!(!verify(secret, body, &tampered));
}

#[test]
fn verify_rejects_signatures_differing_only_in_first_byte() {
    let secret = b"shh-secret";
    let body = b"payload";
    let sig = sign(secret, body);

    let mut bytes = hex::decode(&sig).expect("valid hex");
    bytes[0] ^= 0xFF;
    let tampered = hex::encode(bytes);

    assert_ne!(tampered, sig);
    assert!(!verify(secret, body, &tampered));
}

#[test]
fn sign_matches_the_rfc_4231_hmac_sha256_vector() {
    // RFC 4231, test case 2.
    let sig = sign(b"Jefe", b"what do ya want for nothing?");
    assert_eq!(
        sig,
        "5bdcc146bf60754e6a042426089575c75a003f089d2739839dec58b964ec3843"
    );
    assert_eq!(sig.len(), 64);
}

#[test]
fn sign_with_empty_key_and_body() {
    let sig = sign(b"", b"");
    assert_eq!(
        sig,
        "b613679a0814d9ec772f95d778c35fc5ff1697c493715653c6c712144292c5ad"
    );
    assert!(verify(b"", b"", &sig));
}

#[test]
fn uppercase_signature_is_accepted() {
    let sig = sign(b"Jefe", b"what do ya want for nothing?");
    assert!(verify(b"Jefe", b"what do ya want for nothing?", &sig.to_uppercase()));
}

#[test]
fn truncated_or_extended_signature_is_rejected() {
    let sig = sign(b"k", b"body");
    assert!(!verify(b"k", b"body", &sig[..62]));
    assert!(!verify(b"k", b"body", &sig[..63]));
    assert!(!verify(b"k", b"body", &format!("{sig}00")));
    assert!(!verify(b"k", b"body", ""));
}

#[test]
fn signature_with_surrounding_space_is_rejected() {
    let sig = sign(b"k", b"body");
    assert!(!verify(b"k", b"body", &format!(" {sig}")));
}

#[test]
fn encode_signature_is_lowercase_hex() {
    assert_eq!(encode_signature(&[0x00, 0x0f, 0xab, 0xff]), "000fabff");
    assert_eq!(encode_signature(&[]), "");
}

#[test]
fn signature_header_name() {
    assert_eq!(SIGNATURE_HEADER, "X-Octo-Signature");
}
