use quote_of_the_week::date::CalendarDate;
use quote_of_the_week::errors::{Error, Expected};
use quote_of_the_week::report::{aggregate, Edition};

fn doc(identifier: &str, text: &str) -> (String, String) {
    (String::from(identifier), String::from(text))
}

fn date(year: i32, month: u32, day: u32) -> CalendarDate {
    CalendarDate::from_ymd(year, month, day).expect("test dates are valid")
}

#[test]
fn aggregates_document_with_quote() {
    let docs = vec![doc(
        "2024-03-29-edition.md",
        "# Quote of the Week\n\n> A quote\n\nMore text.\n\n[Please submit quotes...]",
    )];

    let report = aggregate(&docs).unwrap();

    assert_eq!(
        report.editions,
        vec![Edition {
            identifier: String::from("2024-03-29-edition.md"),
            date: date(2024, 3, 29),
            excerpt: Some(String::from("> A quote\n\nMore text.")),
        }]
    );
    assert_eq!(report.with_excerpt, 1);
    assert_eq!(report.total, 1);
}

#[test]
fn aggregates_document_without_quote() {
    let docs = vec![doc("2024-03-29-edition.md", "No start marker here.\n")];

    let report = aggregate(&docs).unwrap();

    assert_eq!(
        report.editions,
        vec![Edition {
            identifier: String::from("2024-03-29-edition.md"),
            date: date(2024, 3, 29),
            excerpt: None,
        }]
    );
    assert_eq!(report.with_excerpt, 0);
    assert_eq!(report.total, 1);
}

#[test]
fn aggregates_nothing_from_no_documents() {
    let report = aggregate(&Vec::new()).unwrap();

    assert_eq!(report.editions, Vec::new());
    assert_eq!(report.with_excerpt, 0);
    assert_eq!(report.total, 0);
}

#[test]
fn sorts_editions_by_date_ascending() {
    let docs = vec![
        doc("2024-05-03-c.md", "nothing"),
        doc("2023-12-29-a.md", "nothing"),
        doc("2024-04-26-b.md", "nothing"),
        doc("2024-05-01-d.md", "nothing"),
    ];

    let report = aggregate(&docs).unwrap();

    let dates: Vec<CalendarDate> = report.editions.iter().map(|e| e.date).collect();
    assert_eq!(
        dates,
        vec![
            date(2023, 12, 29),
            date(2024, 4, 26),
            date(2024, 5, 1),
            date(2024, 5, 3),
        ]
    );
    for pair in report.editions.windows(2) {
        let a = &pair[0].date;
        let b = &pair[1].date;
        assert!((a.year, a.month, a.day) <= (b.year, b.month, b.day));
    }
}

#[test]
fn rerunning_yields_identical_report() {
    let docs = vec![
        doc(
            "2024-03-29-this-week-in-rust.md",
            "Intro.\n\n# Quote of the Week\n\n> Q1\n\n[Submit your quotes]\n",
        ),
        doc("2024-03-22-this-week-in-rust.md", "No quote.\n"),
        doc(
            "2024-03-15-this-week-in-rust.md",
            "# Quotes of the Week\n\n> Q2\n\n# Next heading\n",
        ),
    ];

    let first = aggregate(&docs).unwrap();
    let second = aggregate(&docs).unwrap();

    assert_eq!(first, second);
}

#[test]
fn keeps_input_order_for_equal_dates() {
    let docs = vec![
        doc("2024-03-29-b.md", "nothing"),
        doc("2024-03-29-a.md", "nothing"),
    ];

    let first = aggregate(&docs).unwrap();
    let second = aggregate(&docs).unwrap();

    assert_eq!(first.editions.len(), 2);
    assert_eq!(first, second);
}

#[test]
fn whitespace_only_quote_region_counts_as_absent() {
    let docs = vec![doc(
        "2024-03-29-edition.md",
        "# Quote of the Week\n\n[Submit your quotes]\n",
    )];

    let report = aggregate(&docs).unwrap();

    assert_eq!(
        report.editions,
        vec![Edition {
            identifier: String::from("2024-03-29-edition.md"),
            date: date(2024, 3, 29),
            excerpt: None,
        }]
    );
    assert_eq!(report.with_excerpt, 0);
    assert_eq!(report.total, 1);
}

#[test]
fn aborts_run_on_first_malformed_identifier() {
    let docs = vec![
        doc("2024-03-29-fine.md", "nothing"),
        doc("broken.md", "nothing"),
        doc("2024-04-05-fine.md", "nothing"),
    ];

    let err = aggregate(&docs).unwrap_err();

    assert_eq!(
        err,
        Error::MalformedPrefix {
            expected: Expected::Digit,
            remainder: String::from("broken.md"),
        }
    );
}

#[test]
fn aborts_run_on_unterminated_quote() {
    let docs = vec![
        doc("2024-03-29-fine.md", "nothing"),
        doc("2024-04-05-bad.md", "# Quote of the Week\n\n> Never ends.\n"),
    ];

    let err = aggregate(&docs).unwrap_err();

    assert_eq!(
        err,
        Error::UnterminatedExcerpt {
            remainder: String::from("> Never ends.\n"),
        }
    );
}

#[test]
fn aborts_run_on_invalid_calendar_date() {
    let docs = vec![doc("2024-02-30-bad.md", "nothing")];

    let err = aggregate(&docs).unwrap_err();

    assert_eq!(
        err,
        Error::InvalidCalendarDate {
            year: 2024,
            month: 2,
            day: 30,
        }
    );
}
