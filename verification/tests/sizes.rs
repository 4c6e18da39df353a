use hush::error::HushError;
use hush::size::{decimal_chars, format_size, parse_size_chars, ParseSize};

#[test]
fn parse_size_reads_every_unit() {
    assert_eq!(ParseSize("1B"), Ok(1));
    assert_eq!(ParseSize("10KB"), Ok(10240));
    assert_eq!(ParseSize("50MB"), Ok(52428800));
    assert_eq!(ParseSize("2GB"), Ok(2147483648));
    assert_eq!(ParseSize("3TB"), Ok(3298534883328));
    assert_eq!(ParseSize("0B"), Ok(0));
    assert_eq!(ParseSize("007KB"), Ok(7168));
}

#[test]
fn parse_size_ignores_case_and_outer_white_space() {
    assert_eq!(ParseSize("10kb"), Ok(10240));
    assert_eq!(ParseSize("10Kb"), Ok(10240));
    assert_eq!(ParseSize("  2gb\t"), Ok(2147483648));
    assert_eq!(ParseSize("\n1b\u{3000}"), Ok(1));
}

#[test]
fn parse_size_rejects_what_is_no_literal() {
    for text in [
        "", " ", "MB", "10", "10XB", "10K", "10BB", "1K2B", "10 MB", "-5MB", "+5MB", "5.5MB",
        "MB10", "10MBs", "\u{663}MB", "\u{ff11}\u{ff10}MB", "10\u{212a}B",
    ] {
        assert_eq!(ParseSize(text), Err(HushError::InvalidSizeLiteral), "{:?}", text);
    }
}

#[test]
fn parse_size_rejects_what_does_not_fit() {
    assert_eq!(ParseSize("18446744073709551615B"), Ok(u64::MAX));
    assert_eq!(ParseSize("18446744073709551616B"), Err(HushError::InvalidSizeLiteral));
    assert_eq!(ParseSize("16777215TB"), Ok(16777215u64 << 40));
    assert_eq!(ParseSize("16777216TB"), Err(HushError::InvalidSizeLiteral));
    assert_eq!(ParseSize("99999999999999999999999999KB"), Err(HushError::InvalidSizeLiteral));
    assert_eq!(ParseSize("99999999999999999999999999XB"), Err(HushError::InvalidSizeLiteral));
}

#[test]
fn parse_size_on_characters_is_the_same() {
    let chars: Vec<char> = " 50mb ".chars().collect();
    assert_eq!(parse_size_chars(&chars), Ok(52428800));
    let chars: Vec<char> = "fifty".chars().collect();
    assert_eq!(parse_size_chars(&chars), Err(HushError::InvalidSizeLiteral));
}

#[test]
fn format_size_picks_the_largest_exact_unit() {
    assert_eq!(format_size(0), "0B");
    assert_eq!(format_size(1), "1B");
    assert_eq!(format_size(100), "100B");
    assert_eq!(format_size(1023), "1023B");
    assert_eq!(format_size(1024), "1KB");
    assert_eq!(format_size(1536), "1536B");
    assert_eq!(format_size(10240), "10KB");
    assert_eq!(format_size(52428800), "50MB");
    assert_eq!(format_size(3 << 30), "3GB");
    assert_eq!(format_size(1 << 40), "1TB");
    assert_eq!(format_size((1 << 40) + 1024), "1073741825KB");
    assert_eq!(format_size(u64::MAX), "18446744073709551615B");
}

#[test]
fn size_literal_round_trip_on_values() {
    let mut n: u64 = 0;
    for step in 0..2000u64 {
        assert_eq!(ParseSize(&format_size(n)), Ok(n));
        n = n.wrapping_mul(6364136223846793005).wrapping_add(step * 1024 + 1);
    }
    for shift in 0..64 {
        let n = 1u64 << shift;
        assert_eq!(ParseSize(&format_size(n)), Ok(n));
        assert_eq!(ParseSize(&format_size(n - 1)), Ok(n - 1));
    }
}

#[test]
fn decimal_digits_of_numbers() {
    let text = |n: u64| -> String { decimal_chars(n).into_iter().collect() };
    assert_eq!(text(0), "0");
    assert_eq!(text(9), "9");
    assert_eq!(text(10), "10");
    assert_eq!(text(1234567890), "1234567890");
    assert_eq!(text(u64::MAX), "18446744073709551615");
}
