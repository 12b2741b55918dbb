use octo::asset::is_valid_asset_code;
use stellar_base::asset::Asset;
use stellar_base::crypto::PublicKey;

// Any valid strkey works as the issuer for these tests — only the code's acceptance is under
// test, not the issuer's.
const ISSUER: &str = "GDRXE2BQUC3AZNPVFSCEZ76NJ3WWL25FYFK6RGZGIEKWE4SOOHSUJUJ6";

fn issuer() -> PublicKey {
    PublicKey::from_account_id(ISSUER).expect("valid issuer strkey")
}

/// Ground truth: does `stellar_base::asset::Asset::new_credit` actually accept `code`?
fn asset_new_credit_accepts(code: &str) -> bool {
    Asset::new_credit(code.to_string(), issuer()).is_ok()
}

#[test]
fn accepts_exactly_4_characters() {
    assert!(is_valid_asset_code("USDC"));
    assert!(asset_new_credit_accepts("USDC"));
}

#[test]
fn accepts_exactly_12_characters() {
    let code = "ABCDEFGHIJKL";
    assert_eq!(code.len(), 12);
    assert!(is_valid_asset_code(code));
    assert!(asset_new_credit_accepts(code));
}

#[test]
fn rejects_0_characters() {
    assert!(!is_valid_asset_code(""));
    assert!(!asset_new_credit_accepts(""));
}

#[test]
fn rejects_13_characters() {
    let code = "ABCDEFGHIJKLM";
    assert_eq!(code.len(), 13);
    assert!(!is_valid_asset_code(code));
    assert!(!asset_new_credit_accepts(code));
}

#[test]
fn accepts_1_character_the_smallest_valid_code() {
    assert!(is_valid_asset_code("X"));
    assert!(asset_new_credit_accepts("X"));
}

#[test]
fn embedded_space_within_length_bounds_is_accepted_like_the_library() {
    let code = "AB D";
    assert_eq!(code.len(), 4);
    assert_eq!(is_valid_asset_code(code), asset_new_credit_accepts(code));
    assert!(is_valid_asset_code(code));
}

#[test]
fn non_ascii_multibyte_code_is_measured_in_bytes_not_chars() {
    // 4 chars, but each is a 2-byte UTF-8 sequence => 8 bytes.
    let code = "éééé";
    assert_eq!(code.chars().count(), 4);
    assert_eq!(code.len(), 8);
    assert_eq!(is_valid_asset_code(code), asset_new_credit_accepts(code));
    assert!(is_valid_asset_code(code));
}

#[test]
fn embedded_null_byte_within_length_bounds_is_accepted_like_the_library() {
    let code = "A\0B";
    assert_eq!(code.len(), 3);
    assert_eq!(is_valid_asset_code(code), asset_new_credit_accepts(code));
}

#[test]
fn whitespace_only_code_within_bounds_is_accepted_like_the_library() {
    let code = "   ";
    assert_eq!(is_valid_asset_code(code), asset_new_credit_accepts(code));
    assert!(is_valid_asset_code(code));
}

#[test]
fn multibyte_code_over_the_byte_boundary_is_rejected() {
    // 7 chars of 2 bytes each => 14 bytes.
    let code = "ééééééé";
    assert_eq!(code.len(), 14);
    assert!(!is_valid_asset_code(code));
    assert_eq!(is_valid_asset_code(code), asset_new_credit_accepts(code));
}

#[test]
fn every_ascii_length_agrees_with_the_library() {
    for len in 0..=16usize {
        for b in [b' ', b'A', b'z', b'~', b'0'] {
            let code: String = std::iter::repeat(b as char).take(len).collect();
            assert_eq!(is_valid_asset_code(&code), asset_new_credit_accepts(&code), "len {len}");
            assert_eq!(is_valid_asset_code(&code), (1..=12).contains(&len));
        }
    }
}

#[test]
fn mixed_width_codes_agree_with_the_library() {
    let samples = ["€", "€€€€", "€€€€€", "a€b€c", "😀😀😀", "😀😀😀😀", "ab😀cdefgh", "ab😀cdefghi"];
    for code in samples {
        assert_eq!(is_valid_asset_code(code), asset_new_credit_accepts(code), "{code:?}");
    }
}
