//! Tests for the bijective base-26 column codec.

use excel_index::AlphaNumber;
use excel_index::ParseError;

#[test]
fn alpha_number_from_string_success() {
    let t: AlphaNumber = AlphaNumber::from_str("A").unwrap();
    assert_eq!(t.number, 0);

    let t: AlphaNumber = AlphaNumber::from_str("B").unwrap();
    assert_eq!(t.number, 1);

    let t: AlphaNumber = AlphaNumber::from_str("Z").unwrap();
    assert_eq!(t.number, 25);

    let t: AlphaNumber = AlphaNumber::from_str("AA").unwrap();
    assert_eq!(t.number, 26);

    let t: AlphaNumber = AlphaNumber::from_str("ZZ").unwrap();
    assert_eq!(t.number, 701);

    let t: AlphaNumber = AlphaNumber::from_str("AAA").unwrap();
    assert_eq!(t.number, 702);

    let t: AlphaNumber = AlphaNumber::from_str("AAB").unwrap();
    assert_eq!(t.number, 703);

    let t: AlphaNumber = AlphaNumber::from_str("AMH").unwrap();
    assert_eq!(t.number, 1021);

    let t: AlphaNumber = AlphaNumber::from_str("b").unwrap();
    assert_eq!(t.number, 1);
}

#[test]
fn alpha_number_from_string_error() {
    let t: Result<AlphaNumber, _> = AlphaNumber::from_str("123");
    assert_eq!(t, Err(ParseError::InvalidFormat));
    let t: Result<AlphaNumber, _> = AlphaNumber::from_str("?test");
    assert_eq!(t, Err(ParseError::InvalidFormat));
    let t: Result<AlphaNumber, _> = AlphaNumber::from_str("ERR8");
    assert_eq!(t, Err(ParseError::InvalidFormat));
    let t: Result<AlphaNumber, _> = AlphaNumber::from_str("ABCDEFGHIJKLMNOP");
    assert_eq!(t, Err(ParseError::Overflow));
}

#[test]
fn alpha_number_from_u32_success() {
    let t: AlphaNumber = AlphaNumber::from(0);
    assert_eq!(t.letters, String::from("A"));

    let t: AlphaNumber = AlphaNumber::from(1);
    assert_eq!(t.letters, String::from("B"));

    let t: AlphaNumber = AlphaNumber::from(25);
    assert_eq!(t.letters, String::from("Z"));

    let t: AlphaNumber = AlphaNumber::from(26);
    assert_eq!(t.letters, String::from("AA"));

    let t: AlphaNumber = AlphaNumber::from(27);
    assert_eq!(t.letters, String::from("AB"));

    let t: AlphaNumber = AlphaNumber::from(676);
    assert_eq!(t.letters, String::from("ZA"));

    let t: AlphaNumber = AlphaNumber::from(701);
    assert_eq!(t.letters, String::from("ZZ"));

    let t: AlphaNumber = AlphaNumber::from(702);
    assert_eq!(t.letters, String::from("AAA"));

    let t: AlphaNumber = AlphaNumber::from(703);
    assert_eq!(t.letters, String::from("AAB"));

    let t: AlphaNumber = AlphaNumber::from(1021);
    assert_eq!(t.letters, String::from("AMH"));
}

#[test]
fn alpha_number_round_trip_small_range() {
    for n in 0u32..2000 {
        let encoded = AlphaNumber::from(n);
        let decoded = AlphaNumber::from_str(&encoded.letters).unwrap();
        assert_eq!(decoded.number, n);
        assert_eq!(decoded.letters, encoded.letters);
    }
}

#[test]
fn alpha_number_round_trip_extremes() {
    for n in [702u32, 16383, 475253, 2147483647, 4294967294, u32::MAX] {
        let encoded = AlphaNumber::from(n);
        let decoded = AlphaNumber::from_str(&encoded.letters).unwrap();
        assert_eq!(decoded.number, n);
    }
}

#[test]
fn alpha_number_mixed_case_decodes_uppercased() {
    let t = AlphaNumber::from_str("aMh").unwrap();
    assert_eq!(t.number, 1021);
    assert_eq!(t.letters, String::from("AMH"));
}

#[test]
fn alpha_number_empty_is_invalid() {
    let t: Result<AlphaNumber, _> = AlphaNumber::from_str("");
    assert_eq!(t, Err(ParseError::InvalidFormat));
}
