use caltrack::dates::{check_date, get_days_from_month, parse_date, to_year_month, to_year_month_day, Date};

#[test]
fn test_to_year_month() {
    assert_eq!(to_year_month(&Date { year: 2021, month: 1, day: 1 }), "2021-01");
    assert_eq!(to_year_month(&Date { year: 2021, month: 12, day: 1 }), "2021-12");
}

#[test]
fn test_to_year_month_day() {
    assert_eq!(
        to_year_month_day(&Date { year: 2021, month: 1, day: 1 }),
        "2021-01-01"
    );
    assert_eq!(
        to_year_month_day(&Date { year: 2021, month: 12, day: 1 }),
        "2021-12-01"
    );
    assert_eq!(
        to_year_month_day(&Date { year: 2021, month: 1, day: 31 }),
        "2021-01-31"
    );
}

#[test]
fn check_date_accepts_the_shape() {
    assert!(check_date("2021-01-01"));
    assert!(check_date("1999-12-31"));
    // Only the shape is checked, not the digits.
    assert!(check_date("abcd-ef-gh"));
}

#[test]
fn check_date_rejects_other_shapes() {
    assert!(!check_date(""));
    assert!(!check_date("2021-1-1"));
    assert!(!check_date("2021-1-010"));
    assert!(!check_date("2021/01/01"));
    assert!(!check_date("2021-01-011"));
    assert!(!check_date("20210-1-01"));
}

#[test]
fn parse_date_reads_both_forms() {
    assert_eq!(
        parse_date("2021-01"),
        Some(Date { year: 2021, month: 1, day: 1 })
    );
    assert_eq!(
        parse_date("2021-12-31"),
        Some(Date { year: 2021, month: 12, day: 31 })
    );
    // Leading zeros are read as decimal digits.
    assert_eq!(
        parse_date("02021-01"),
        Some(Date { year: 2021, month: 1, day: 1 })
    );
}

#[test]
fn parse_date_rejects_out_of_range_and_malformed() {
    assert_eq!(parse_date("999-01"), None);
    assert_eq!(parse_date("10000-01"), None);
    assert_eq!(parse_date("2021-13"), None);
    assert_eq!(parse_date("2021-00"), None);
    assert_eq!(parse_date("2021-01-32"), None);
    assert_eq!(parse_date("2021-01-00"), None);
    assert_eq!(parse_date("2021"), None);
    assert_eq!(parse_date("2021-01-01-05"), None);
    assert_eq!(parse_date("2021-x1"), None);
    assert_eq!(parse_date(""), None);
    assert_eq!(parse_date("--"), None);
}

#[test]
fn days_from_month_follows_the_calendar() {
    assert_eq!(get_days_from_month(2021, 1), 31);
    assert_eq!(get_days_from_month(2021, 2), 28);
    assert_eq!(get_days_from_month(2020, 2), 29);
    assert_eq!(get_days_from_month(1900, 2), 28);
    assert_eq!(get_days_from_month(2000, 2), 29);
    assert_eq!(get_days_from_month(2021, 4), 30);
    assert_eq!(get_days_from_month(2021, 12), 31);
}
