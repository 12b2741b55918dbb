use octo::amount::to_stroops;

#[test]
fn whole_and_fractional() {
    assert_eq!(to_stroops("1"), Some(10_000_000));
    assert_eq!(to_stroops("1.0000000"), Some(10_000_000));
    assert_eq!(to_stroops("10.5"), Some(105_000_000));
    assert_eq!(to_stroops("0.0000001"), Some(1));
    assert_eq!(to_stroops("10000.0000000"), Some(100_000_000_000));
}

#[test]
fn rejects_garbage_and_negatives() {
    assert_eq!(to_stroops("-1"), None);
    assert_eq!(to_stroops("abc"), None);
    assert_eq!(to_stroops("1.234567890"), None); // too many decimals
    assert_eq!(to_stroops(""), None);
}

#[test]
fn no_float_rounding() {
    // 0.1 + 0.2 style values are exact in stroops.
    assert_eq!(to_stroops("0.1000000"), Some(1_000_000));
    assert_eq!(to_stroops("0.2000000"), Some(2_000_000));
}

#[test]
fn surrounding_white_space_is_ignored() {
    assert_eq!(to_stroops("  10.5\t\n"), Some(105_000_000));
    assert_eq!(to_stroops("\u{3000}1\u{a0}"), Some(10_000_000));
    assert_eq!(to_stroops("   "), None);
    assert_eq!(to_stroops("1 0"), None);
}

#[test]
fn zero_and_non_positive_amounts_are_rejected() {
    assert_eq!(to_stroops("0"), None);
    assert_eq!(to_stroops("0.0000000"), None);
    assert_eq!(to_stroops("-0.5"), None);
}

#[test]
fn malformed_shapes_are_rejected() {
    assert_eq!(to_stroops(".5"), None); // no integer digits
    assert_eq!(to_stroops("+5"), None);
    assert_eq!(to_stroops("1.2.3"), None);
    assert_eq!(to_stroops("1e3"), None);
    assert_eq!(to_stroops("1,5"), None);
    assert_eq!(to_stroops("١"), None); // non-ASCII digit
}

#[test]
fn trailing_dot_and_short_fractions() {
    assert_eq!(to_stroops("5."), Some(50_000_000));
    assert_eq!(to_stroops("5.1"), Some(51_000_000));
    assert_eq!(to_stroops("5.1234567"), Some(51_234_567));
    assert_eq!(to_stroops("0001.5"), Some(15_000_000));
}

#[test]
fn i64_boundary() {
    // i64::MAX = 9223372036854775807 stroops.
    assert_eq!(to_stroops("922337203685.4775807"), Some(i64::MAX));
    assert_eq!(to_stroops("922337203685.4775808"), None);
    assert_eq!(to_stroops("922337203686"), None);
    assert_eq!(to_stroops("99999999999999999999999"), None);
    assert_eq!(
        to_stroops("000000000000000000000000000000922337203685.4775807"),
        Some(i64::MAX)
    );
}
