use profile_store::date::Date;
use profile_store::errors::Errors;

#[test]
fn leap_rule_div_by_400() {
    assert!(Date::is_leapyear(2000));
    assert!(Date::is_leapyear(400));
}

#[test]
fn leap_rule_div_by_10_is_not_leap() {
    // The rule tests divisibility by 10 where the Gregorian rule tests 100.
    // 1900 and 2020 are divisible by 4 but also by 10 and not by 400, so
    // neither is leap here; 2010 is not divisible by 4 at all.
    assert!(!Date::is_leapyear(1900));
    assert!(!Date::is_leapyear(2020));
    assert!(!Date::is_leapyear(2010));
}

#[test]
fn leap_rule_diverges_from_gregorian() {
    // 1912 is leap here and in the Gregorian calendar; 1920 (divisible by
    // 10, not by 400) is leap in the Gregorian calendar but not here.
    assert!(Date::is_leapyear(1912));
    assert!(!Date::is_leapyear(1920));
}

#[test]
fn leap_rule_ordinary_years() {
    assert!(Date::is_leapyear(2024));
    assert!(!Date::is_leapyear(2021));
    assert!(!Date::is_leapyear(2023));
}

#[test]
fn valid_february_29_in_leap_year() {
    assert!(Date::is_valid(2024, 2, 29));
    assert!(!Date::is_valid(2024, 2, 30));
    assert!(!Date::is_valid(2021, 2, 29));
    assert!(Date::is_valid(2021, 2, 28));
}

#[test]
fn valid_rejects_zero_fields() {
    assert!(!Date::is_valid(0, 1, 1));
    assert!(!Date::is_valid(2024, 0, 1));
    assert!(!Date::is_valid(2024, 1, 0));
}

#[test]
fn valid_month_and_day_bounds() {
    assert!(!Date::is_valid(2024, 13, 1));
    assert!(Date::is_valid(2024, 12, 31));
    assert!(!Date::is_valid(2024, 4, 31));
    assert!(Date::is_valid(2024, 4, 30));
    assert!(!Date::is_valid(2024, 1, 32));
    assert!(Date::is_valid(2024, 1, 31));
}

#[test]
fn new_accepts_valid_and_rejects_invalid() {
    let d = Date::new(2024, 2, 29).unwrap();
    assert_eq!(d.y, 2024);
    assert_eq!(d.m, 2);
    assert_eq!(d.d, 29);
    assert_eq!(Date::new(2024, 2, 30).unwrap_err(), Errors::InvalidValue);
}

#[test]
fn parse_date_canonical() {
    let d = Date::parse_date("2024-2-29".to_string()).unwrap();
    assert_eq!((d.y, d.m, d.d), (2024, 2, 29));
}

#[test]
fn parse_date_accepts_zero_padding() {
    let d = Date::parse_date("2024-01-02".to_string()).unwrap();
    assert_eq!((d.y, d.m, d.d), (2024, 1, 2));
    assert_eq!(d.form_string(), "2024-1-2");
}

#[test]
fn parse_date_wrong_part_count() {
    assert_eq!(
        Date::parse_date("2024-1".to_string()).unwrap_err(),
        Errors::InvalidFormat
    );
    assert_eq!(
        Date::parse_date("2024-1-2-3".to_string()).unwrap_err(),
        Errors::InvalidFormat
    );
}

#[test]
fn parse_date_non_numeric_part() {
    assert_eq!(
        Date::parse_date("2024-x-1".to_string()).unwrap_err(),
        Errors::Parse
    );
    assert_eq!(
        Date::parse_date("-1-2".to_string()).unwrap_err(),
        Errors::Parse
    );
}

#[test]
fn parse_date_month_beyond_byte_range() {
    // the month field is a u8: 300 fails integer parsing, not validation
    assert_eq!(
        Date::parse_date("2024-300-1".to_string()).unwrap_err(),
        Errors::Parse
    );
}

#[test]
fn parse_date_invalid_calendar_value() {
    assert_eq!(
        Date::parse_date("2024-13-1".to_string()).unwrap_err(),
        Errors::InvalidValue
    );
    assert_eq!(
        Date::parse_date("2021-2-29".to_string()).unwrap_err(),
        Errors::InvalidValue
    );
}

#[test]
fn form_string_is_unpadded() {
    let d = Date::new(5, 1, 2).unwrap();
    assert_eq!(d.form_string(), "5-1-2");
}
