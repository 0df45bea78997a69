//! The error taxonomy of the library.

use vstd::prelude::*;

verus! {

/// What the date prefix parser was looking for when it stopped.
#[derive(Clone, Copy, PartialEq, Eq, Structural, Debug)]
pub enum Expected {
    /// A decimal digit was required and none was found.
    Digit,
    /// The literal `-` separator was required and not found.
    Separator,
    /// Digits were found but their value does not fit the numeric field.
    Number,
}

/// A failure of the library; all of them abort a whole aggregation run.
#[derive(PartialEq, Eq, Debug)]
pub enum Error {
    /// The identifier does not begin with `<digits>-<digits>-<digits>`.
    /// `remainder` is the unmatched rest of the identifier from the position
    /// of the sub-parser that failed.
    MalformedPrefix { expected: Expected, remainder: String },
    /// The prefix parsed as three numbers that do not denote a real
    /// Gregorian calendar date.
    InvalidCalendarDate { year: i32, month: u32, day: u32 },
    /// A start-of-excerpt marker was found but no end-of-excerpt marker
    /// follows anywhere in `remainder`, the text after the start marker.
    UnterminatedExcerpt { remainder: String },
}

/// The mathematical shape of an [`Error`], with text as `Seq<char>`.
pub enum ErrorModel {
    MalformedPrefix { expected: Expected, remainder: Seq<char> },
    InvalidCalendarDate { year: int, month: int, day: int },
    UnterminatedExcerpt { remainder: Seq<char> },
}

impl View for Error {
    type V = ErrorModel;

    open spec fn view(&self) -> ErrorModel {
        match self {
            Error::MalformedPrefix { expected, remainder } => ErrorModel::MalformedPrefix {
                expected: *expected,
                remainder: remainder@,
            },
            Error::InvalidCalendarDate { year, month, day } => ErrorModel::InvalidCalendarDate {
                year: *year as int,
                month: *month as int,
                day: *day as int,
            },
            Error::UnterminatedExcerpt { remainder } => ErrorModel::UnterminatedExcerpt {
                remainder: remainder@,
            },
        }
    }
}

} // verus!
