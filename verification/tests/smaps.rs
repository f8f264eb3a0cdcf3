use psm::bytes::starts_with;
use psm::smaps::{classify, parse_line, Field, UsageError};

fn field_line(tag: &str, kb: u64) -> Vec<u8> {
    format!("{:<16}{:>8} kB", tag, kb).into_bytes()
}

#[test]
fn the_four_fields_are_told_by_their_tags() {
    assert_eq!(classify(&field_line("Pss:", 1)), Some(Field::Pss));
    assert_eq!(classify(&field_line("Swap:", 1)), Some(Field::Swap));
    assert_eq!(classify(&field_line("Private_Clean:", 1)), Some(Field::PrivateClean));
    assert_eq!(classify(&field_line("Private_Dirty:", 1)), Some(Field::PrivateDirty));
    assert_eq!(classify(b"Pss:"), Some(Field::Pss));
}

#[test]
fn other_lines_report_no_field() {
    assert_eq!(classify(&field_line("Rss:", 1)), None);
    assert_eq!(classify(&field_line("Pss_Anon:", 1)), None);
    assert_eq!(classify(&field_line("Pss_Dirty:", 1)), None);
    assert_eq!(classify(&field_line("SwapPss:", 1)), None);
    assert_eq!(classify(&field_line("Shared_Clean:", 1)), None);
    assert_eq!(classify(&field_line("Private_Hugetlb:", 1)), None);
    assert_eq!(classify(b" Pss:"), None);
    assert_eq!(classify(b"pss:"), None);
    assert_eq!(classify(b"Pss"), None);
    assert_eq!(classify(b""), None);
    assert_eq!(classify(b"55d0c0a00000-55d0c0a21000 r--p 00000000 fd:01 123 /usr/bin/bash"), None);
}

#[test]
fn a_prefix_is_matched_byte_for_byte() {
    assert!(starts_with(b"abcdef", b"abc"));
    assert!(starts_with(b"abc", b"abc"));
    assert!(starts_with(b"abc", b""));
    assert!(starts_with(b"", b""));
    assert!(!starts_with(b"ab", b"abc"));
    assert!(!starts_with(b"abd", b"abc"));
    assert!(!starts_with(b"", b"a"));
}

#[test]
fn the_value_is_read_from_its_columns() {
    assert_eq!(parse_line(&field_line("Pss:", 0)), Ok(0));
    assert_eq!(parse_line(&field_line("Pss:", 1234)), Ok(1234 * 1024));
    assert_eq!(parse_line(&field_line("Private_Clean:", 99999999)), Ok(99999999 * 1024));
    assert_eq!(parse_line(b"Swap:                  7"), Ok(7 * 1024));
    assert_eq!(parse_line(b"Swap:           00000042 kB"), Ok(42 * 1024));
    assert_eq!(parse_line(b"Swap:           \t\r    42 kB"), Ok(42 * 1024));
}

#[test]
fn the_value_is_read_whatever_the_field() {
    assert_eq!(parse_line(b"0123456789abcdef     512"), Ok(512 * 1024));
}

#[test]
fn only_the_eight_columns_count() {
    assert_eq!(parse_line(b"Pss:            123456789 kB"), Ok(12345678 * 1024));
}

fn value(text: &str) -> Result<i128, UsageError> {
    parse_line(format!("{:<16}{:>8} kB", "Swap:", text).as_bytes())
}

#[test]
fn a_value_may_have_a_fraction() {
    assert_eq!(value("12.5"), Ok(12800));
    assert_eq!(value("0.5"), Ok(512));
    assert_eq!(value(".5"), Ok(512));
    assert_eq!(value("5."), Ok(5120));
    assert_eq!(value("1.25"), Ok(1280));
    assert_eq!(value("0.000"), Ok(0));
    assert_eq!(value("3.140625"), Ok(3216));
}

#[test]
fn a_fraction_of_a_byte_is_dropped() {
    assert_eq!(value("0.1"), Ok(102));
    assert_eq!(value("0.001"), Ok(1));
    assert_eq!(value("0.0009"), Ok(0));
    assert_eq!(value("1.9999999"), Ok(2047));
    assert_eq!(value("0.999"), Ok(1022));
}

#[test]
fn a_value_may_have_a_sign() {
    assert_eq!(value("+7"), Ok(7168));
    assert_eq!(value("+.5"), Ok(512));
    assert_eq!(value("-0"), Ok(0));
    assert_eq!(value("-0.0"), Ok(0));
    assert_eq!(value("-0.0001"), Ok(0));
    assert_eq!(value("-4"), Ok(-4096));
    assert_eq!(value("-12.5"), Ok(-12800));
    assert_eq!(value("-0.001"), Ok(-1));
    assert_eq!(value("-0.0019"), Ok(-1));
    assert_eq!(value("-1e9"), Ok(-1_024_000_000_000));
    assert_eq!(value("-1e16"), Ok(-10_240_000_000_000_000_000));
}

#[test]
fn a_value_may_have_an_exponent() {
    assert_eq!(value("1e3"), Ok(1_024_000));
    assert_eq!(value("1E3"), Ok(1_024_000));
    assert_eq!(value("1e+3"), Ok(1_024_000));
    assert_eq!(value("1.5e1"), Ok(15360));
    assert_eq!(value("125e-1"), Ok(12800));
    assert_eq!(value("5e-1"), Ok(512));
    assert_eq!(value("1e-3"), Ok(1));
    assert_eq!(value("1e-4"), Ok(0));
    assert_eq!(value("9e-99999"), Ok(0));
    assert_eq!(value("0e999999"), Ok(0));
    assert_eq!(value("1e0"), Ok(1024));
    assert_eq!(value("1.e2"), Ok(102400));
    assert_eq!(value("1e16"), Ok(10_240_000_000_000_000_000));
}

#[test]
fn an_amount_beyond_64_bits_is_out_of_range() {
    assert_eq!(value("1.8e16"), Ok(18_432_000_000_000_000_000));
    assert_eq!(value("1.81e16"), Err(UsageError::OutOfRange));
    assert_eq!(value("-1.81e16"), Err(UsageError::OutOfRange));
    assert_eq!(value("2e16"), Err(UsageError::OutOfRange));
    assert_eq!(value("1e17"), Err(UsageError::OutOfRange));
    assert_eq!(value("1e21"), Err(UsageError::OutOfRange));
    assert_eq!(value("9e999999"), Err(UsageError::OutOfRange));
    assert_eq!(value("-9e99999"), Err(UsageError::OutOfRange));
}

#[test]
fn a_line_that_states_no_value_is_refused() {
    assert_eq!(parse_line(b""), Err(UsageError::BadValue));
    assert_eq!(parse_line(b"Pss:"), Err(UsageError::BadValue));
    assert_eq!(parse_line(b"Pss:                 12"), Err(UsageError::BadValue));
    assert_eq!(parse_line(b"Pss:                    "), Err(UsageError::BadValue));
    assert_eq!(parse_line(b"Pss:                 abc kB"), Err(UsageError::BadValue));
    assert_eq!(parse_line(b"Pss:                12 4 kB"), Err(UsageError::BadValue));
    assert_eq!(parse_line(b"Pss:            1234    "), Err(UsageError::BadValue));
    for text in [".", "+", "-", "e5", ".e5", "1e", "1e+", "1e-", "1e5.", "1.2.3", "1,5", "0x10", "1_0", "--1", "+-1", "1e1e1", "1 e1", "1f", "5 "] {
        assert_eq!(value(text), Err(UsageError::BadValue), "for {:?}", text);
    }
}

fn expected(text: &str) -> Option<Result<i128, UsageError>> {
    let single: Result<f32, _> = text.trim_start().parse();
    let double: Result<f64, _> = text.trim_start().parse();
    if single.is_err() {
        return Some(Err(UsageError::BadValue));
    }
    let bytes = double.unwrap() * 1024.0;
    let part = bytes.abs().fract();
    if bytes.abs() >= 18446744073709551616.0 {
        Some(Err(UsageError::OutOfRange))
    } else if part == 0.0 || (part > 1e-6 && part < 1.0 - 1e-6) {
        Some(Ok(bytes.trunc() as i128))
    } else {
        None
    }
}

#[test]
fn what_is_read_is_what_the_standard_reading_gives() {
    let alphabet = ['0', '1', '5', '9', '.', 'e', 'E', '+', '-', ' '];
    let mut texts = vec![String::new()];
    let mut checked = 0;
    for _ in 0..5 {
        let mut longer = Vec::new();
        for text in &texts {
            for c in alphabet {
                let mut next = text.clone();
                next.push(c);
                longer.push(next);
            }
        }
        for text in &longer {
            if let Some(wanted) = expected(text) {
                assert_eq!(value(text), wanted, "for {:?}", text);
                checked += 1;
            }
        }
        texts = longer;
    }
    assert!(checked > 100_000);
}
