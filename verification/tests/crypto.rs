use octo::crypto::CryptoError;

#[test]
fn crypto_error_variants_are_distinct() {
    let all = [
        CryptoError::InvalidKeyLength,
        CryptoError::InvalidNonceLength,
        CryptoError::DecryptionFailed,
        CryptoError::EncryptionFailed,
    ];
    for (i, a) in all.iter().enumerate() {
        for (j, b) in all.iter().enumerate() {
            assert_eq!(i == j, a == b);
        }
    }
}
