use quote_of_the_week::date::{parse_date, CalendarDate};
use quote_of_the_week::errors::{Error, Expected};

#[test]
fn parses_valid_date() {
    let date = parse_date("2024-03-29-foo-bar").unwrap();

    assert_eq!(
        date,
        CalendarDate::from_ymd(2024, 3, 29).expect("2024-03-29 is a valid date")
    );
}

#[test]
fn fails_parsing_invalid_date() {
    let err = parse_date("2024-03-no-day-foo-bar").unwrap_err();

    assert_eq!(
        err,
        Error::MalformedPrefix {
            expected: Expected::Digit,
            remainder: String::from("no-day-foo-bar"),
        }
    );
}

#[test]
fn fails_creating_invalid_date() {
    let err = parse_date("2024-03-32-foo-bar").unwrap_err();

    assert_eq!(
        err,
        Error::InvalidCalendarDate {
            year: 2024,
            month: 3,
            day: 32,
        }
    );
}

#[test]
fn ignores_suffix_after_day_digits() {
    let date = parse_date("987-6-5?").unwrap();

    assert_eq!(
        date,
        CalendarDate {
            year: 987,
            month: 6,
            day: 5,
        }
    );
}

#[test]
fn fails_on_missing_separator() {
    let err = parse_date("2024").unwrap_err();

    assert_eq!(
        err,
        Error::MalformedPrefix {
            expected: Expected::Separator,
            remainder: String::new(),
        }
    );

    let err = parse_date("2024x03x29").unwrap_err();

    assert_eq!(
        err,
        Error::MalformedPrefix {
            expected: Expected::Separator,
            remainder: String::from("x03x29"),
        }
    );
}

#[test]
fn fails_on_empty_input() {
    let err = parse_date("").unwrap_err();

    assert_eq!(
        err,
        Error::MalformedPrefix {
            expected: Expected::Digit,
            remainder: String::new(),
        }
    );
}

#[test]
fn fails_on_missing_month_digits() {
    let err = parse_date("2024--29").unwrap_err();

    assert_eq!(
        err,
        Error::MalformedPrefix {
            expected: Expected::Digit,
            remainder: String::from("-29"),
        }
    );
}

#[test]
fn fails_on_year_too_large_for_field() {
    let err = parse_date("99999999999-01-01").unwrap_err();

    assert_eq!(
        err,
        Error::MalformedPrefix {
            expected: Expected::Number,
            remainder: String::from("99999999999-01-01"),
        }
    );
}

#[test]
fn fails_on_month_too_large_for_field() {
    let err = parse_date("2024-99999999999-01").unwrap_err();

    assert_eq!(
        err,
        Error::MalformedPrefix {
            expected: Expected::Number,
            remainder: String::from("99999999999-01"),
        }
    );
}

#[test]
fn fails_on_month_zero() {
    let err = parse_date("2024-00-10").unwrap_err();

    assert_eq!(
        err,
        Error::InvalidCalendarDate {
            year: 2024,
            month: 0,
            day: 10,
        }
    );
}

#[test]
fn recognizes_leap_years() {
    assert_eq!(
        parse_date("2024-02-29").unwrap(),
        CalendarDate {
            year: 2024,
            month: 2,
            day: 29,
        }
    );
    assert_eq!(
        parse_date("2023-02-29").unwrap_err(),
        Error::InvalidCalendarDate {
            year: 2023,
            month: 2,
            day: 29,
        }
    );
    assert_eq!(
        parse_date("1900-02-29").unwrap_err(),
        Error::InvalidCalendarDate {
            year: 1900,
            month: 2,
            day: 29,
        }
    );
    assert_eq!(
        parse_date("2000-02-29").unwrap(),
        CalendarDate {
            year: 2000,
            month: 2,
            day: 29,
        }
    );
}

#[test]
fn builds_only_real_dates() {
    assert!(CalendarDate::from_ymd(2024, 4, 30).is_some());
    assert!(CalendarDate::from_ymd(2024, 4, 31).is_none());
    assert!(CalendarDate::from_ymd(2024, 13, 1).is_none());
    assert!(CalendarDate::from_ymd(2024, 1, 0).is_none());
    assert!(CalendarDate::from_ymd(0, 2, 29).is_some());
}
