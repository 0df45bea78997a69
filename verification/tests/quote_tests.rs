use quote_of_the_week::errors::Error;
use quote_of_the_week::quote::{extract_quote_of_the_week, find_quote, take_quote};

/// "Quote" without 's'.
#[test]
fn finds_quote_of_the_week_heading() {
    let rest = find_quote(
        "# This Week in Rust\n\nSome text.\n\n# Quote of the Week\n\n> A quote\n\nMore text.\n",
    );

    assert_eq!(rest, Some("> A quote\n\nMore text.\n"));
}

/// "Quotes" with 's'.
#[test]
fn finds_quotes_of_the_week_heading() {
    let rest = find_quote(
        "# This Week in Rust\n\nSome text.\n\n# Quotes of the Week\n\n> A quote\n\nMore text.\n",
    );

    assert_eq!(rest, Some("> A quote\n\nMore text.\n"));
}

/// "Quotes" with 's'.
#[test]
fn passes_if_no_quotes_of_the_week_heading() {
    let rest = find_quote(
        "# This Week in Rust\n\nSome text.\n\n# Some other heading\n\nMore text.\n",
    );

    assert_eq!(rest, None);
}

#[test]
fn takes_quote_trimmed_from_remainder_with_next_heading() {
    let quote = take_quote("\n> The quote.\n\nBy some author\n\n# Next heading\n").unwrap();

    assert_eq!(quote, "> The quote.\n\nBy some author");
}

#[test]
fn takes_quote_trimmed_from_remainder_with_call_to_action() {
    let quote = take_quote(
        "\n> The quote.\n\nBy some author\n\n[Submit your quotes for next week][submit]!\n",
    )
    .unwrap();

    assert_eq!(quote, "> The quote.\n\nBy some author");
}

#[test]
fn takes_quote_trimmed_from_remainder_with_friendly_call_to_action() {
    let quote = take_quote(
        "\n> The quote.\n\nBy some author\n\n[Please submit quotes and vote for next week!](https://users.rust-lang.org/t/twir-quote-of-the-week/328)\n",
    )
    .unwrap();

    assert_eq!(quote, "> The quote.\n\nBy some author");
}

#[test]
fn extracts_quote_trimmed() {
    let quote = extract_quote_of_the_week(
        "# This Week in Rust\n\nSome text.\n\n# Quote of the Week\n\n> A quote\n\nMore text.\n\n[Please submit quotes and vote for next week!](https://users.rust-lang.org/t/twir-quote-of-the-week/328)\n",
    )
    .unwrap();

    assert_eq!(quote, Some("> A quote\n\nMore text."));
}

#[test]
fn finds_earliest_start_marker() {
    let rest = find_quote(
        "# Quotes of the Week\n\nFirst.\n\n# Quote of the Week\n\nSecond.\n",
    );

    assert_eq!(rest, Some("First.\n\n# Quote of the Week\n\nSecond.\n"));
}

#[test]
fn start_marker_requires_blank_line() {
    let rest = find_quote("# Quote of the Week\nNo blank line follows.\n");

    assert_eq!(rest, None);
}

#[test]
fn takes_quote_up_to_earliest_end_marker() {
    let quote = take_quote("A\n\n# Heading\n[Submit your quotes]\n").unwrap();

    assert_eq!(quote, "A");

    let quote = take_quote("B [Submit now] C [Please submit too]\n\n# D\n").unwrap();

    assert_eq!(quote, "B");
}

#[test]
fn fails_when_quote_is_unterminated() {
    let err = take_quote("\n> A quote that never ends.\n").unwrap_err();

    assert_eq!(
        err,
        Error::UnterminatedExcerpt {
            remainder: String::from("\n> A quote that never ends.\n"),
        }
    );
}

#[test]
fn fails_extracting_unterminated_quote() {
    let err =
        extract_quote_of_the_week("# Quote of the Week\n\n> A quote that never ends.\n")
            .unwrap_err();

    assert_eq!(
        err,
        Error::UnterminatedExcerpt {
            remainder: String::from("> A quote that never ends.\n"),
        }
    );
}

#[test]
fn extracts_nothing_without_start_marker() {
    let quote = extract_quote_of_the_week("# This Week in Rust\n\nSome text.\n").unwrap();

    assert_eq!(quote, None);
}

#[test]
fn whitespace_only_excerpt_is_absent() {
    let quote = extract_quote_of_the_week("# Quote of the Week\n\n[Submit").unwrap();

    assert_eq!(quote, None);

    let quote = extract_quote_of_the_week("# Quote of the Week\n\n \n\n[Submit your quotes]\n")
        .unwrap();

    assert_eq!(quote, None);
}

#[test]
fn present_excerpt_is_never_empty() {
    let quote = extract_quote_of_the_week("# Quote of the Week\n\nQ\n\n[Submit").unwrap();

    assert_eq!(quote, Some("Q"));
}
