//! Calendar dates and the date prefix parser.
//!
//! An edition identifier is expected to begin with `<digits>-<digits>-<digits>`,
//! read as year, month and day of a proleptic Gregorian calendar date; any
//! suffix after the third group of digits is ignored.

use vstd::prelude::*;
use crate::errors::{Error, ErrorModel, Expected};

verus! {

/// A proleptic Gregorian calendar date.
///
/// A value of this type produced by [`CalendarDate::from_ymd`] or by
/// [`parse_date`] always denotes a real date: see [`CalendarDate::wf`].
#[derive(Clone, Copy, PartialEq, Eq, Structural, Debug)]
pub struct CalendarDate {
    pub year: i32,
    pub month: u32,
    pub day: u32,
}

/// Whether `y` is a leap year of the proleptic Gregorian calendar.
pub open spec fn is_leap_year(y: int) -> bool {
    y % 4 == 0 && (y % 100 != 0 || y % 400 == 0)
}

/// Number of days of month `m` (1-based) in year `y`; 0 for an invalid month.
pub open spec fn days_in_month(y: int, m: int) -> int {
    if m == 1 || m == 3 || m == 5 || m == 7 || m == 8 || m == 10 || m == 12 {
        31
    } else if m == 4 || m == 6 || m == 9 || m == 11 {
        30
    } else if m == 2 {
        if is_leap_year(y) {
            29
        } else {
            28
        }
    } else {
        0
    }
}

/// Whether year `y`, month `m`, day `d` denote a real Gregorian date.
pub open spec fn valid_date(y: int, m: int, d: int) -> bool {
    1 <= m <= 12 && 1 <= d <= days_in_month(y, m)
}

impl CalendarDate {
    /// Well-formedness: the triple denotes a real Gregorian date.
    pub open spec fn wf(self) -> bool {
        valid_date(self.year as int, self.month as int, self.day as int)
    }

    /// Builds the date for year `y`, month `m`, day `d`, or `None` if the
    /// triple does not denote a real Gregorian date.
    pub fn from_ymd(y: i32, m: u32, d: u32) -> (r: Option<CalendarDate>)
        ensures
            r matches Some(date) ==> date == (CalendarDate { year: y, month: m, day: d })
                && date.wf(),
            r is None <==> !valid_date(y as int, m as int, d as int),
    {
        let limit: u32 = if m == 1 || m == 3 || m == 5 || m == 7 || m == 8 || m == 10 || m == 12 {
            31
        } else if m == 4 || m == 6 || m == 9 || m == 11 {
            30
        } else if m == 2 {
            if (y % 4 == 0) && (y % 100 != 0 || y % 400 == 0) {
                29
            } else {
                28
            }
        } else {
            0
        };
        if 1 <= d && d <= limit {
            Some(CalendarDate { year: y, month: m, day: d })
        } else {
            None
        }
    }
}

/// Whether `c` is a decimal digit.
pub open spec fn is_digit(c: char) -> bool {
    48 <= c as int && c as int <= 57
}

/// The numeric value of the digit `c`.
pub open spec fn digit_val(c: char) -> int {
    c as int - 48
}

/// The position right after the run of digits that starts at `from`.
pub open spec fn digit_run(s: Seq<char>, from: int) -> int
    decreases s.len() - from,
{
    if from < 0 || from >= s.len() {
        from
    } else if !is_digit(s[from]) {
        from
    } else {
        digit_run(s, from + 1)
    }
}

/// The number that a sequence of digits denotes, most significant first.
pub open spec fn digits_value(s: Seq<char>) -> int
    decreases s.len(),
{
    if s.len() == 0 {
        0
    } else {
        10 * digits_value(s.drop_last()) + digit_val(s.last())
    }
}

/// What [`digit_run`] returns: the digits reach from `from` to the run's end,
/// and the run ends at the end of `s` or at a non-digit.
pub proof fn lemma_digit_run_props(s: Seq<char>, from: int)
    requires
        0 <= from <= s.len(),
    ensures
        from <= digit_run(s, from) <= s.len(),
        forall|k: int| from <= k < digit_run(s, from) ==> is_digit(#[trigger] s[k]),
        digit_run(s, from) == s.len() || !is_digit(s[digit_run(s, from)]),
    decreases s.len() - from,
{
    if from < s.len() && is_digit(s[from]) {
        lemma_digit_run_props(s, from + 1);
    }
}

/// A sequence of digits denotes a non-negative number.
pub proof fn lemma_digits_value_nonneg(s: Seq<char>)
    requires
        forall|k: int| 0 <= k < s.len() ==> is_digit(#[trigger] s[k]),
    ensures
        digits_value(s) >= 0,
    decreases s.len(),
{
    if s.len() > 0 {
        lemma_digits_value_nonneg(s.drop_last());
    }
}

/// Extending a sequence of digits to the right never lowers its value.
pub proof fn lemma_digits_value_prefix_leq(s: Seq<char>, j: int)
    requires
        forall|k: int| 0 <= k < s.len() ==> is_digit(#[trigger] s[k]),
        0 <= j <= s.len(),
    ensures
        digits_value(s.subrange(0, j)) <= digits_value(s),
    decreases s.len() - j,
{
    if j == s.len() {
        assert(s.subrange(0, j) =~= s);
    } else {
        lemma_digits_value_prefix_leq(s, j + 1);
        let p = s.subrange(0, j + 1);
        assert(p.drop_last() =~= s.subrange(0, j));
        assert(forall|k: int| 0 <= k < p.len() ==> is_digit(#[trigger] p[k]));
        lemma_digits_value_nonneg(s.subrange(0, j));
    }
}

/// What [`parse_date`] returns, as a function of the identifier's characters.
///
/// Mirrors a parse of `<digits>-<digits>-<digits>` from the start of `s`:
/// each numeric field requires at least one digit and a value that fits the
/// field's machine integer; the three numbers must denote a real Gregorian
/// date; everything after the third group of digits is ignored.
pub open spec fn spec_parse_date(s: Seq<char>) -> Result<CalendarDate, ErrorModel> {
    let e1 = digit_run(s, 0);
    if e1 == 0 {
        Err(ErrorModel::MalformedPrefix { expected: Expected::Digit, remainder: s })
    } else if digits_value(s.subrange(0, e1)) > i32::MAX as int {
        Err(ErrorModel::MalformedPrefix { expected: Expected::Number, remainder: s })
    } else if e1 == s.len() || s[e1] != '-' {
        Err(ErrorModel::MalformedPrefix {
            expected: Expected::Separator,
            remainder: s.subrange(e1, s.len() as int),
        })
    } else {
        let s2 = e1 + 1;
        let e2 = digit_run(s, s2);
        if e2 == s2 {
            Err(ErrorModel::MalformedPrefix {
                expected: Expected::Digit,
                remainder: s.subrange(s2, s.len() as int),
            })
        } else if digits_value(s.subrange(s2, e2)) > u32::MAX as int {
            Err(ErrorModel::MalformedPrefix {
                expected: Expected::Number,
                remainder: s.subrange(s2, s.len() as int),
            })
        } else if e2 == s.len() || s[e2] != '-' {
            Err(ErrorModel::MalformedPrefix {
                expected: Expected::Separator,
                remainder: s.subrange(e2, s.len() as int),
            })
        } else {
            let s3 = e2 + 1;
            let e3 = digit_run(s, s3);
            if e3 == s3 {
                Err(ErrorModel::MalformedPrefix {
                    expected: Expected::Digit,
                    remainder: s.subrange(s3, s.len() as int),
                })
            } else if digits_value(s.subrange(s3, e3)) > u32::MAX as int {
                Err(ErrorModel::MalformedPrefix {
                    expected: Expected::Number,
                    remainder: s.subrange(s3, s.len() as int),
                })
            } else {
                let y = digits_value(s.subrange(0, e1));
                let m = digits_value(s.subrange(s2, e2));
                let d = digits_value(s.subrange(s3, e3));
                if valid_date(y, m, d) {
                    Ok(CalendarDate { year: y as i32, month: m as u32, day: d as u32 })
                } else {
                    Err(ErrorModel::InvalidCalendarDate { year: y, month: m, day: d })
                }
            }
        }
    }
}

/// A run of digits followed by the end of the text or a non-digit is
/// exactly what [`digit_run`] spans.
pub proof fn lemma_digit_run_is(s: Seq<char>, from: int, e: int)
    requires
        0 <= from <= e <= s.len(),
        forall|k: int| from <= k < e ==> is_digit(#[trigger] s[k]),
        e == s.len() || !is_digit(s[e]),
    ensures
        digit_run(s, from) == e,
    decreases e - from,
{
    if from < e {
        lemma_digit_run_is(s, from + 1, e);
    }
}

/// A successful parse always yields a real Gregorian date.
pub proof fn lemma_spec_parse_date_ok_wf(s: Seq<char>)
    requires
        spec_parse_date(s) is Ok,
    ensures
        spec_parse_date(s)->Ok_0.wf(),
{
    lemma_digit_run_props(s, 0);
    let e1 = digit_run(s, 0);
    let s2 = e1 + 1;
    lemma_digit_run_props(s, s2);
    let e2 = digit_run(s, s2);
    let s3 = e2 + 1;
    lemma_digit_run_props(s, s3);
    let e3 = digit_run(s, s3);
    assert(forall|k: int| 0 <= k < s.subrange(0, e1).len() ==> is_digit(
        #[trigger] s.subrange(0, e1)[k],
    ));
    assert(forall|k: int| 0 <= k < s.subrange(s2, e2).len() ==> is_digit(
        #[trigger] s.subrange(s2, e2)[k],
    ));
    assert(forall|k: int| 0 <= k < s.subrange(s3, e3).len() ==> is_digit(
        #[trigger] s.subrange(s3, e3)[k],
    ));
    lemma_digits_value_nonneg(s.subrange(0, e1));
    lemma_digits_value_nonneg(s.subrange(s2, e2));
    lemma_digits_value_nonneg(s.subrange(s3, e3));
}

/// Law: every well-formed date prefix parses to its date, whatever follows.
/// For an identifier made of a year, month and day written in digits,
/// separated by `-`, denoting a real Gregorian date whose numbers fit their
/// fields, and followed by any suffix that does not begin with a digit, the
/// parse succeeds with exactly that date.
pub proof fn lemma_parse_date_of_valid_prefix(
    ys: Seq<char>,
    ms: Seq<char>,
    ds: Seq<char>,
    suffix: Seq<char>,
)
    requires
        ys.len() > 0,
        ms.len() > 0,
        ds.len() > 0,
        forall|k: int| 0 <= k < ys.len() ==> is_digit(#[trigger] ys[k]),
        forall|k: int| 0 <= k < ms.len() ==> is_digit(#[trigger] ms[k]),
        forall|k: int| 0 <= k < ds.len() ==> is_digit(#[trigger] ds[k]),
        digits_value(ys) <= i32::MAX as int,
        digits_value(ms) <= u32::MAX as int,
        digits_value(ds) <= u32::MAX as int,
        suffix.len() == 0 || !is_digit(suffix[0]),
        valid_date(digits_value(ys), digits_value(ms), digits_value(ds)),
    ensures
        spec_parse_date(ys + seq!['-'] + ms + seq!['-'] + ds + suffix) == Ok::<
            CalendarDate,
            ErrorModel,
        >(
            CalendarDate {
                year: digits_value(ys) as i32,
                month: digits_value(ms) as u32,
                day: digits_value(ds) as u32,
            },
        ),
{
    let s = ys + seq!['-'] + ms + seq!['-'] + ds + suffix;
    let e1 = ys.len() as int;
    let s2 = e1 + 1;
    let e2 = s2 + ms.len();
    let s3 = e2 + 1;
    let e3 = s3 + ds.len();
    assert(s[e1] == '-');
    assert(s[e2] == '-');
    assert(!is_digit('-'));
    lemma_digit_run_is(s, 0, e1);
    lemma_digit_run_is(s, s2, e2);
    assert(e3 == s.len() || s[e3] == suffix[0]);
    lemma_digit_run_is(s, s3, e3);
    assert(s.subrange(0, e1) =~= ys);
    assert(s.subrange(s2, e2) =~= ms);
    assert(s.subrange(s3, e3) =~= ds);
    lemma_digits_value_nonneg(ys);
    lemma_digits_value_nonneg(ms);
    lemma_digits_value_nonneg(ds);
}

/// Executable test for [`is_digit`].
fn is_digit_char(c: char) -> (b: bool)
    ensures
        b == is_digit(c),
{
    let u = c as u32;
    48 <= u && u <= 57
}

/// Scans the run of digits of `s` that starts at `from`.
fn scan_digits(s: &str, from: usize) -> (e: usize)
    requires
        from <= s@.len(),
        s@.len() <= usize::MAX,
    ensures
        e == digit_run(s@, from as int),
        from <= e <= s@.len(),
{
    let n = s.unicode_len();
    let mut i: usize = from;
    while i < n && is_digit_char(s.get_char(i))
        invariant
            from <= i <= n,
            n == s@.len(),
            digit_run(s@, from as int) == digit_run(s@, i as int),
        decreases n - i,
    {
        i = i + 1;
    }
    i
}

/// Reads the number denoted by the digits of `s` between `start` and `end`,
/// or `None` if its value exceeds `limit`.
fn parse_number(s: &str, start: usize, end: usize, limit: u64) -> (r: Option<u64>)
    requires
        start <= end <= s@.len(),
        s@.len() <= usize::MAX,
        forall|k: int| start <= k < end ==> is_digit(#[trigger] s@[k]),
        limit <= u32::MAX,
    ensures
        match r {
            Some(v) => v == digits_value(s@.subrange(start as int, end as int)) && v <= limit,
            None => digits_value(s@.subrange(start as int, end as int)) > limit,
        },
{
    let ghost whole = s@.subrange(start as int, end as int);
    let mut acc: u64 = 0;
    let mut k: usize = start;
    proof {
        assert(s@.subrange(start as int, start as int) =~= Seq::<char>::empty());
    }
    while k < end
        invariant
            start <= k <= end <= s@.len(),
            s@.len() <= usize::MAX,
            limit <= u32::MAX,
            forall|j: int| start <= j < end ==> is_digit(#[trigger] s@[j]),
            whole == s@.subrange(start as int, end as int),
            acc == digits_value(s@.subrange(start as int, k as int)),
            acc <= limit,
        decreases end - k,
    {
        let c = s.get_char(k);
        let d = (c as u32) - 48;
        let next: u64 = acc * 10 + (d as u64);
        proof {
            let p = s@.subrange(start as int, k + 1);
            assert(p.drop_last() =~= s@.subrange(start as int, k as int));
            assert(p.last() == s@[k as int]);
        }
        if next > limit {
            proof {
                lemma_digits_value_prefix_leq(whole, k + 1 - start);
                assert(whole.subrange(0, k + 1 - start) =~= s@.subrange(start as int, k + 1));
            }
            return None;
        }
        acc = next;
        k = k + 1;
    }
    Some(acc)
}

/// Parses the `YYYY-MM-DD` prefix of `input` into a calendar date.
///
/// The year is read as an `i32`, month and day as `u32`s, each from one or
/// more digits separated by literal `-` characters; the suffix after the
/// third number is ignored. Fails with [`Error::MalformedPrefix`] when the
/// prefix does not have that shape and with [`Error::InvalidCalendarDate`]
/// when the three numbers do not denote a real Gregorian date.
pub fn parse_date(input: &str) -> (r: Result<CalendarDate, Error>)
    ensures
        match r {
            Ok(date) => spec_parse_date(input@) == Ok::<CalendarDate, ErrorModel>(date)
                && date.wf(),
            Err(e) => spec_parse_date(input@) == Err::<CalendarDate, ErrorModel>(e@),
        },
{
    let n = input.unicode_len();
    let e1 = scan_digits(input, 0);
    proof {
        lemma_digit_run_props(input@, 0);
    }
    if e1 == 0 {
        return Err(Error::MalformedPrefix {
            expected: Expected::Digit,
            remainder: input.to_owned(),
        });
    }
    let y64 = match parse_number(input, 0, e1, 2147483647u64) {
        Some(v) => v,
        None => {
            return Err(Error::MalformedPrefix {
                expected: Expected::Number,
                remainder: input.to_owned(),
            });
        },
    };
    if e1 == n || input.get_char(e1) != '-' {
        return Err(Error::MalformedPrefix {
            expected: Expected::Separator,
            remainder: input.substring_char(e1, n).to_owned(),
        });
    }
    let s2 = e1 + 1;
    let e2 = scan_digits(input, s2);
    proof {
        lemma_digit_run_props(input@, s2 as int);
    }
    if e2 == s2 {
        return Err(Error::MalformedPrefix {
            expected: Expected::Digit,
            remainder: input.substring_char(s2, n).to_owned(),
        });
    }
    let m64 = match parse_number(input, s2, e2, 4294967295u64) {
        Some(v) => v,
        None => {
            return Err(Error::MalformedPrefix {
                expected: Expected::Number,
                remainder: input.substring_char(s2, n).to_owned(),
            });
        },
    };
    if e2 == n || input.get_char(e2) != '-' {
        return Err(Error::MalformedPrefix {
            expected: Expected::Separator,
            remainder: input.substring_char(e2, n).to_owned(),
        });
    }
    let s3 = e2 + 1;
    let e3 = scan_digits(input, s3);
    proof {
        lemma_digit_run_props(input@, s3 as int);
    }
    if e3 == s3 {
        return Err(Error::MalformedPrefix {
            expected: Expected::Digit,
            remainder: input.substring_char(s3, n).to_owned(),
        });
    }
    let d64 = match parse_number(input, s3, e3, 4294967295u64) {
        Some(v) => v,
        None => {
            return Err(Error::MalformedPrefix {
                expected: Expected::Number,
                remainder: input.substring_char(s3, n).to_owned(),
            });
        },
    };
    proof {
        lemma_digits_value_nonneg(input@.subrange(0, e1 as int));
        lemma_digits_value_nonneg(input@.subrange(s2 as int, e2 as int));
        lemma_digits_value_nonneg(input@.subrange(s3 as int, e3 as int));
    }
    let year = y64 as i32;
    let month = m64 as u32;
    let day = d64 as u32;
    match CalendarDate::from_ymd(year, month, day) {
        Some(date) => Ok(date),
        None => Err(Error::InvalidCalendarDate { year, month, day }),
    }
}

} // verus!
