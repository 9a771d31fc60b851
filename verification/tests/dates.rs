use budget::Date;
use chrono::Datelike;

fn date(s: &str) -> Date {
    Date::parse(s).expect("date text should parse")
}

#[test]
fn test_from_string() {
    let parsed = date("2021-02-01");
    let reference =
        chrono::DateTime::parse_from_str("2021-02-01 12:00:00 +0000", "%Y-%m-%d %H:%M:%S %z")
            .unwrap();
    assert_eq!(
        (parsed.year, parsed.month, parsed.day),
        (
            reference.year() as u32,
            reference.month(),
            reference.day()
        )
    );
}

#[test]
fn test_from_string_slash_format() {
    let parsed = date("01/02/2021");
    let reference =
        chrono::DateTime::parse_from_str("01/02/2021 12:00:00 +0000", "%d/%m/%Y %H:%M:%S %z")
            .unwrap();
    assert_eq!(
        (parsed.year, parsed.month, parsed.day),
        (
            reference.year() as u32,
            reference.month(),
            reference.day()
        )
    );
}

#[test]
fn test_display() {
    let d = date("2021-02-01");
    assert_eq!(d.format(), "2021-02-01".to_string());
}

#[test]
fn test_add_months() {
    let d = date("2021-01-01");
    assert_eq!(d.add_months(1), date("2021-02-01"));
    assert_eq!(d.add_months(12), date("2022-01-01"));
}

#[test]
fn test_modulo() {
    let d = date("2021-01-15");
    assert_eq!(d.modulo(), date("2021-01-01"));
}

#[test]
fn test_repeat_by_one_month() {
    let result = date("2021-01-01").repeat_by_month(1);
    let expected = vec![date("2021-01-01")];
    assert_eq!(result, expected);
}

#[test]
fn test_repeat_by_month() {
    let result = date("2021-01-01").repeat_by_month(3);
    let expected = vec![date("2021-01-01"), date("2021-02-01"), date("2021-03-01")];
    assert_eq!(result, expected);
}

#[test]
fn test_repeat_by_month_limit() {
    let result = date("2021-01-31").repeat_by_month(4);
    let expected = vec![
        date("2021-01-31"),
        date("2021-02-28"),
        date("2021-03-31"),
        date("2021-04-30"),
    ];
    assert_eq!(result, expected);
}

#[test]
fn test_month_date() {
    let result = date("2021-01-15").to_month_interval();
    let expected = (date("2021-01-01"), date("2021-01-31"));
    assert_eq!(result, expected);
}

#[test]
fn test_month_date_leap_year() {
    let result = date("2024-02-15").to_month_interval();
    let expected = (date("2024-02-01"), date("2024-02-29"));
    assert_eq!(result, expected);
}

#[test]
fn test_month_date_normal_year() {
    let result = date("2023-02-15").to_month_interval();
    let expected = (date("2023-02-01"), date("2023-02-28"));
    assert_eq!(result, expected);
}

#[test]
fn add_months_clamps_to_month_end() {
    assert_eq!(date("2021-01-31").add_months(1), date("2021-02-28"));
    assert_eq!(date("2024-01-31").add_months(1), date("2024-02-29"));
}

#[test]
fn parse_rejects_malformed_texts() {
    assert!(Date::parse("2021-13-01").is_none());
    assert!(Date::parse("2021-02-30").is_none());
    assert!(Date::parse("2021/02/01").is_none());
    assert!(Date::parse("not-a-date!").is_none());
    assert!(Date::parse("").is_none());
    assert!(Date::parse("2023-02-29").is_none());
    assert!(Date::parse("2024-02-29").is_some());
}

#[test]
fn parse_slash_format_is_day_first() {
    let d = date("31/01/2021");
    assert_eq!((d.year, d.month, d.day), (2021, 1, 31));
}
