//! The low-level text formats: decimal numerals, scaled fractions,
//! monetary rendering, timestamps, and the string order.

use receipt_check::datetime::{format_date, month_days, parse_timestamp};
use receipt_check::text::{format_sum, parse_scaled, parse_u64, split_char, str_eq, str_lt,
    u64_string};

#[test]
fn decimal_rendering() {
    assert_eq!(u64_string(0), "0");
    assert_eq!(u64_string(7), "7");
    assert_eq!(u64_string(10), "10");
    assert_eq!(u64_string(9280000000), "9280000000");
    assert_eq!(u64_string(u64::MAX), "18446744073709551615");
}

#[test]
fn decimal_parsing() {
    assert_eq!(parse_u64("0"), Some(0));
    assert_eq!(parse_u64("007"), Some(7));
    assert_eq!(parse_u64("18446744073709551615"), Some(u64::MAX));
    assert_eq!(parse_u64("18446744073709551616"), None);
    assert_eq!(parse_u64(""), None);
    assert_eq!(parse_u64("12a"), None);
    assert_eq!(parse_u64("-1"), None);
}

#[test]
fn scaled_parsing() {
    assert_eq!(parse_scaled("478", 2), Some(47800));
    assert_eq!(parse_scaled("478.5", 2), Some(47850));
    assert_eq!(parse_scaled("478.56", 2), Some(47856));
    assert_eq!(parse_scaled("478.567", 2), None);
    assert_eq!(parse_scaled("478.", 2), None);
    assert_eq!(parse_scaled(".5", 2), None);
    assert_eq!(parse_scaled("0.475", 3), Some(475));
    assert_eq!(parse_scaled("1.0", 3), Some(1000));
    assert_eq!(parse_scaled("1e3", 3), None);
}

#[test]
fn monetary_rendering_trims_zeros() {
    assert_eq!(format_sum(47800), "478");
    assert_eq!(format_sum(47850), "478.5");
    assert_eq!(format_sum(47856), "478.56");
    assert_eq!(format_sum(5), "0.05");
    assert_eq!(format_sum(0), "0");
}

#[test]
fn splitting_on_ampersands() {
    let parts = split_char("a=1&b=2&c", '&');
    assert_eq!(parts, vec!["a=1", "b=2", "c"]);
    assert_eq!(split_char("", '&'), vec![""]);
    assert_eq!(split_char("a&&b", '&'), vec!["a", "", "b"]);
}

#[test]
fn timestamp_parsing_and_date_rendering() {
    let t = parse_timestamp("2023-01-01T12:00:00").unwrap();
    assert_eq!(format_date(&t), "2023.01.01");
    let t = parse_timestamp("2024-02-29T07:05:09").unwrap();
    assert_eq!(format_date(&t), "2024.02.29");
    assert!(parse_timestamp("2023-02-29T00:00:00").is_none());
    assert!(parse_timestamp("2000-02-29T00:00:00").is_some()); // 400-year leap
    assert!(parse_timestamp("1900-02-29T00:00:00").is_none()); // century non-leap
}

#[test]
fn month_lengths() {
    assert_eq!(month_days(2023, 1), 31);
    assert_eq!(month_days(2023, 2), 28);
    assert_eq!(month_days(2024, 2), 29);
    assert_eq!(month_days(2023, 4), 30);
    assert_eq!(month_days(2023, 12), 31);
}

#[test]
fn string_order_is_lexicographic() {
    assert!(str_lt("apples", "pears"));
    assert!(!str_lt("pears", "apples"));
    assert!(str_lt("app", "apples"));
    assert!(!str_lt("apples", "apples"));
    assert!(str_lt("", "a"));
    assert!(str_eq("молоко", "молоко"));
    assert!(!str_eq("молоко", "хлеб"));
    assert!(str_lt("молоко", "хлеб"));
}
