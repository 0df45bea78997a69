//! Locating and extracting the "Quote of the Week" excerpt of one document.
//!
//! A start marker opens the excerpt region; the excerpt runs to the earliest
//! of three end markers and is returned trimmed of surrounding whitespace.

use vstd::prelude::*;
use crate::errors::{Error, ErrorModel};
use crate::search::{find_index, find_str, lemma_find_index_first, lemma_find_index_props, match_at, occurs};
use crate::text::{is_space, lemma_trim_end_take, lemma_trim_start_skip, trim, trim_str};

verus! {

/// The singular start-of-excerpt marker, blank line included.
pub open spec fn start_marker() -> Seq<char> {
    "# Quote of the Week\n\n"@
}

/// The plural start-of-excerpt marker, blank line included.
pub open spec fn start_marker_plural() -> Seq<char> {
    "# Quotes of the Week\n\n"@
}

/// The long call-to-action end marker.
pub open spec fn end_marker_please() -> Seq<char> {
    "[Please submit"@
}

/// The short call-to-action end marker.
pub open spec fn end_marker_submit() -> Seq<char> {
    "[Submit"@
}

/// The end marker of a blank line followed by a heading.
pub open spec fn end_marker_heading() -> Seq<char> {
    "\n\n# "@
}

/// The smaller of two optional offsets; `None` counts as absent.
pub open spec fn opt_min(a: Option<int>, b: Option<int>) -> Option<int> {
    match (a, b) {
        (None, None) => None,
        (Some(x), None) => Some(x),
        (None, Some(y)) => Some(y),
        (Some(x), Some(y)) => if x <= y {
            Some(x)
        } else {
            Some(y)
        },
    }
}

/// What [`find_quote`] returns: the text strictly after the start marker
/// that occurs earliest in `text`, or `None` if no start marker occurs.
pub open spec fn locate_quote(text: Seq<char>) -> Option<Seq<char>> {
    let p1 = find_index(text, start_marker());
    let p2 = find_index(text, start_marker_plural());
    match (p1, p2) {
        (None, None) => None,
        (Some(i), None) => Some(text.subrange(i + start_marker().len(), text.len() as int)),
        (None, Some(j)) => Some(
            text.subrange(j + start_marker_plural().len(), text.len() as int),
        ),
        (Some(i), Some(j)) => if i <= j {
            Some(text.subrange(i + start_marker().len(), text.len() as int))
        } else {
            Some(text.subrange(j + start_marker_plural().len(), text.len() as int))
        },
    }
}

/// The offset of the earliest end marker in `rem`, if any occurs.
pub open spec fn earliest_end(rem: Seq<char>) -> Option<int> {
    opt_min(
        opt_min(find_index(rem, end_marker_please()), find_index(rem, end_marker_submit())),
        find_index(rem, end_marker_heading()),
    )
}

/// What [`take_quote`] returns: the trimmed text strictly before the
/// earliest end marker, or the unterminated-excerpt error if none occurs.
pub open spec fn spec_take_quote(rem: Seq<char>) -> Result<Seq<char>, ErrorModel> {
    match earliest_end(rem) {
        None => Err(ErrorModel::UnterminatedExcerpt { remainder: rem }),
        Some(i) => Ok(trim(rem.subrange(0, i))),
    }
}

/// What [`extract_quote_of_the_week`] returns for a whole document.
///
/// A present excerpt is never empty: an excerpt region that trims to nothing
/// counts as "no excerpt", the same valid non-error outcome as a document
/// without a start marker.
pub open spec fn spec_extract(text: Seq<char>) -> Result<Option<Seq<char>>, ErrorModel> {
    match locate_quote(text) {
        None => Ok(None),
        Some(rem) => match spec_take_quote(rem) {
            Ok(q) => if q.len() == 0 {
                Ok(None)
            } else {
                Ok(Some(q))
            },
            Err(e) => Err(e),
        },
    }
}

/// Law: the extractor trims. For a remainder made of leading whitespace, a
/// body that neither starts nor ends with whitespace, one of the three end
/// markers, and arbitrary following text — with no end marker occurring
/// before that one — the excerpt is exactly the body: the leading
/// whitespace and everything from the end marker on are cut away.
pub proof fn lemma_take_quote_trims(
    lead: Seq<char>,
    body: Seq<char>,
    marker: Seq<char>,
    rest: Seq<char>,
)
    requires
        forall|k: int| 0 <= k < lead.len() ==> is_space(#[trigger] lead[k]),
        body.len() == 0 || (!is_space(body[0]) && !is_space(body[body.len() - 1])),
        marker == end_marker_please() || marker == end_marker_submit() || marker
            == end_marker_heading(),
        forall|p: int| 0 <= p < lead.len() + body.len() ==> !match_at(
            lead + body + marker + rest,
            end_marker_please(),
            p,
        ),
        forall|p: int| 0 <= p < lead.len() + body.len() ==> !match_at(
            lead + body + marker + rest,
            end_marker_submit(),
            p,
        ),
        forall|p: int| 0 <= p < lead.len() + body.len() ==> !match_at(
            lead + body + marker + rest,
            end_marker_heading(),
            p,
        ),
    ensures
        spec_take_quote(lead + body + marker + rest) == Ok::<Seq<char>, ErrorModel>(body),
{
    let s = lead + body + marker + rest;
    let cut = lead.len() + body.len();
    assert(s.subrange(cut as int, cut + marker.len() as int) =~= marker);
    assert(match_at(s, marker, cut as int));
    lemma_find_index_first(s, marker, cut as int);
    lemma_find_index_props(s, end_marker_please());
    lemma_find_index_props(s, end_marker_submit());
    lemma_find_index_props(s, end_marker_heading());
    assert(earliest_end(s) == Some(cut as int));
    let front = s.subrange(0, cut as int);
    assert(front =~= lead + body);
    lemma_trim_start_skip(front, lead.len() as int);
    assert(front.subrange(lead.len() as int, front.len() as int) =~= body);
    lemma_trim_end_take(body, body.len() as int);
    assert(body.subrange(0, body.len() as int) =~= body);
    assert(trim(front) == body);
}

/// Skips all text up to and including the earliest start-of-excerpt marker.
///
/// Returns `None` when neither marker form occurs anywhere in `input`: the
/// document simply has no excerpt, which is not an error.
pub fn find_quote<'a>(input: &'a str) -> (r: Option<&'a str>)
    ensures
        match r {
            Some(rest) => locate_quote(input@) == Some(rest@),
            None => locate_quote(input@) is None,
        },
        r is None <==> !occurs(input@, start_marker()) && !occurs(input@, start_marker_plural()),
{
    let m1 = "# Quote of the Week\n\n";
    let m2 = "# Quotes of the Week\n\n";
    let n = input.unicode_len();
    let p1 = find_str(input, m1);
    let p2 = find_str(input, m2);
    proof {
        lemma_find_index_props(input@, m1@);
        lemma_find_index_props(input@, m2@);
    }
    match (p1, p2) {
        (None, None) => None,
        (Some(i), None) => Some(input.substring_char(i + m1.unicode_len(), n)),
        (None, Some(j)) => Some(input.substring_char(j + m2.unicode_len(), n)),
        (Some(i), Some(j)) => {
            if i <= j {
                Some(input.substring_char(i + m1.unicode_len(), n))
            } else {
                Some(input.substring_char(j + m2.unicode_len(), n))
            }
        },
    }
}

/// Takes the excerpt from `input`, the text after a start marker, up to the
/// earliest end marker, trimmed of leading and trailing whitespace.
///
/// A start marker was found, so an end marker is mandatory: when none of the
/// three occurs, fails with [`Error::UnterminatedExcerpt`].
pub fn take_quote<'a>(input: &'a str) -> (r: Result<&'a str, Error>)
    ensures
        match r {
            Ok(q) => spec_take_quote(input@) == Ok::<Seq<char>, ErrorModel>(q@),
            Err(e) => spec_take_quote(input@) == Err::<Seq<char>, ErrorModel>(e@),
        },
        r is Err <==> !occurs(input@, end_marker_please()) && !occurs(input@, end_marker_submit())
            && !occurs(input@, end_marker_heading()),
{
    let q1 = find_str(input, "[Please submit");
    let q2 = find_str(input, "[Submit");
    let q3 = find_str(input, "\n\n# ");
    proof {
        lemma_find_index_props(input@, "[Please submit"@);
        lemma_find_index_props(input@, "[Submit"@);
        lemma_find_index_props(input@, "\n\n# "@);
    }
    let first = match (q1, q2) {
        (None, None) => None,
        (Some(x), None) => Some(x),
        (None, Some(y)) => Some(y),
        (Some(x), Some(y)) => if x <= y {
            Some(x)
        } else {
            Some(y)
        },
    };
    let best = match (first, q3) {
        (None, None) => None,
        (Some(x), None) => Some(x),
        (None, Some(y)) => Some(y),
        (Some(x), Some(y)) => if x <= y {
            Some(x)
        } else {
            Some(y)
        },
    };
    match best {
        None => Err(Error::UnterminatedExcerpt { remainder: input.to_owned() }),
        Some(i) => Ok(trim_str(input.substring_char(0, i))),
    }
}

/// Extracts the trimmed "Quote of the Week" excerpt of one document.
///
/// Returns `Ok(None)` when the document has no start marker, or when the
/// excerpt region trims to nothing — a present excerpt is never empty.
/// Returns `Ok(Some(_))` with the trimmed excerpt when a start marker and
/// an end marker delimit any non-whitespace text, and
/// [`Error::UnterminatedExcerpt`] when the start marker is not terminated.
pub fn extract_quote_of_the_week<'a>(input: &'a str) -> (r: Result<Option<&'a str>, Error>)
    ensures
        match r {
            Ok(opt) => match opt {
                Some(q) => spec_extract(input@) == Ok::<Option<Seq<char>>, ErrorModel>(
                    Some(q@),
                ) && q@.len() > 0,
                None => spec_extract(input@) == Ok::<Option<Seq<char>>, ErrorModel>(None),
            },
            Err(e) => spec_extract(input@) == Err::<Option<Seq<char>>, ErrorModel>(e@),
        },
{
    match find_quote(input) {
        None => Ok(None),
        Some(rest) => match take_quote(rest) {
            Ok(q) => {
                if q.is_empty() {
                    Ok(None)
                } else {
                    Ok(Some(q))
                }
            },
            Err(e) => Err(e),
        },
    }
}

} // verus!
