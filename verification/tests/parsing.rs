use guessing_game::parse::{decimal_bytes, parse_guess};

#[test]
fn parses_plain_number() {
    assert_eq!(parse_guess(b"42"), Some(42));
    assert_eq!(parse_guess(b"0"), Some(0));
    assert_eq!(parse_guess(b"100"), Some(100));
}

#[test]
fn parses_with_surrounding_whitespace() {
    assert_eq!(parse_guess(b" 7\n"), Some(7));
    assert_eq!(parse_guess(b"\t 100 \r\n"), Some(100));
    assert_eq!(parse_guess(b"42\r\n"), Some(42));
}

#[test]
fn parses_leading_plus() {
    assert_eq!(parse_guess(b"+42"), Some(42));
}

#[test]
fn parses_leading_zeroes() {
    assert_eq!(parse_guess(b"007"), Some(7));
}

#[test]
fn rejects_non_numeric() {
    assert_eq!(parse_guess(b"abc"), None);
    assert_eq!(parse_guess(b""), None);
    assert_eq!(parse_guess(b"12.5"), None);
    assert_eq!(parse_guess(b"   "), None);
}

#[test]
fn rejects_signs_alone_and_negatives() {
    assert_eq!(parse_guess(b"+"), None);
    assert_eq!(parse_guess(b"-5"), None);
    assert_eq!(parse_guess(b"++5"), None);
}

#[test]
fn rejects_inner_whitespace() {
    assert_eq!(parse_guess(b"1 2"), None);
}

#[test]
fn bounds_of_u32() {
    assert_eq!(parse_guess(b"4294967295"), Some(u32::MAX));
    assert_eq!(parse_guess(b"4294967296"), None);
    assert_eq!(parse_guess(b"99999999999999999999"), None);
}

#[test]
fn agrees_with_std_parse() {
    let cases: &[&str] = &[
        "42", " 7 ", "+42", "007", "abc", "", "12.5", "-5", "+", "1 2", "4294967295",
        "4294967296", "0", "100", "\t9\n",
    ];
    for s in cases {
        let expected = s.trim().parse::<u32>().ok();
        assert_eq!(parse_guess(s.as_bytes()), expected, "input {:?}", s);
    }
}

#[test]
fn decimal_bytes_exact_values() {
    assert_eq!(decimal_bytes(0), b"0".to_vec());
    assert_eq!(decimal_bytes(7), b"7".to_vec());
    assert_eq!(decimal_bytes(100), b"100".to_vec());
    assert_eq!(decimal_bytes(u32::MAX), b"4294967295".to_vec());
}

#[test]
fn decimal_bytes_round_trip() {
    for n in [0u32, 1, 9, 10, 99, 100, 12345, u32::MAX] {
        assert_eq!(parse_guess(&decimal_bytes(n)), Some(n));
    }
}
