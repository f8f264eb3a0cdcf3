use psm::digits::{is_digit, parse_decimal};

#[test]
fn digits_are_the_ten_ascii_digits() {
    for d in "0123456789".chars() {
        assert!(is_digit(d));
    }
    assert!(!is_digit('/'));
    assert!(!is_digit(':'));
    assert!(!is_digit('a'));
    assert!(!is_digit(' '));
    assert!(!is_digit('\u{0663}'));
}

#[test]
fn a_numeral_is_read_in_base_ten() {
    assert_eq!(parse_decimal(b"0"), Some(0));
    assert_eq!(parse_decimal(b"7"), Some(7));
    assert_eq!(parse_decimal(b"123"), Some(123));
    assert_eq!(parse_decimal(b"4096"), Some(4096));
}

#[test]
fn leading_zeros_are_accepted() {
    assert_eq!(parse_decimal(b"007"), Some(7));
    assert_eq!(parse_decimal(b"0000000000000000000000012"), Some(12));
}

#[test]
fn what_is_no_numeral_is_refused() {
    assert_eq!(parse_decimal(b""), None);
    assert_eq!(parse_decimal(b" 1"), None);
    assert_eq!(parse_decimal(b"1 "), None);
    assert_eq!(parse_decimal(b"+5"), None);
    assert_eq!(parse_decimal(b"-5"), None);
    assert_eq!(parse_decimal(b"12a"), None);
    assert_eq!(parse_decimal(b"1.5"), None);
}

#[test]
fn the_largest_value_is_read_and_the_next_is_not() {
    assert_eq!(parse_decimal(b"18446744073709551615"), Some(u64::MAX));
    assert_eq!(parse_decimal(b"18446744073709551616"), None);
    assert_eq!(parse_decimal(b"18446744073709551620"), None);
    assert_eq!(parse_decimal(b"99999999999999999999"), None);
    assert_eq!(parse_decimal(b"184467440737095516150"), None);
}
