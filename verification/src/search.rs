//! Literal substring search over `&str`, by earliest character offset.

use vstd::prelude::*;

verus! {

/// Whether `pat` occurs in `text` at character offset `i`.
pub open spec fn match_at(text: Seq<char>, pat: Seq<char>, i: int) -> bool {
    0 <= i && i + pat.len() <= text.len() && text.subrange(i, i + pat.len()) == pat
}

/// Whether `pat` occurs anywhere in `text`.
pub open spec fn occurs(text: Seq<char>, pat: Seq<char>) -> bool {
    exists|i: int| match_at(text, pat, i)
}

/// The first offset at or after `from` where `pat` occurs in `text`, if any.
pub open spec fn find_from(text: Seq<char>, pat: Seq<char>, from: int) -> Option<int>
    decreases text.len() + 1 - from,
{
    if from < 0 || from + pat.len() > text.len() {
        None
    } else if text.subrange(from, from + pat.len()) == pat {
        Some(from)
    } else {
        find_from(text, pat, from + 1)
    }
}

/// The first offset where `pat` occurs in `text`, if any.
pub open spec fn find_index(text: Seq<char>, pat: Seq<char>) -> Option<int> {
    find_from(text, pat, 0)
}

/// What [`find_from`] returns: the earliest match at or after `from`, or
/// `None` exactly when no match lies at or after `from`.
pub proof fn lemma_find_from_props(text: Seq<char>, pat: Seq<char>, from: int)
    requires
        0 <= from,
    ensures
        match find_from(text, pat, from) {
            Some(i) => from <= i && match_at(text, pat, i) && forall|j: int|
                from <= j < i ==> !match_at(text, pat, j),
            None => forall|j: int| from <= j ==> !match_at(text, pat, j),
        },
    decreases text.len() + 1 - from,
{
    if from + pat.len() > text.len() {
        assert(forall|j: int| from <= j ==> !match_at(text, pat, j));
    } else if text.subrange(from, from + pat.len()) == pat {
    } else {
        lemma_find_from_props(text, pat, from + 1);
        assert(!match_at(text, pat, from));
    }
}

/// The characterization of [`find_index`] on the whole text.
pub proof fn lemma_find_index_props(text: Seq<char>, pat: Seq<char>)
    ensures
        match find_index(text, pat) {
            Some(i) => match_at(text, pat, i) && forall|j: int| 0 <= j < i ==> !match_at(
                text,
                pat,
                j,
            ),
            None => !occurs(text, pat),
        },
{
    lemma_find_from_props(text, pat, 0);
    if find_from(text, pat, 0) is Some {
        let i = find_from(text, pat, 0).unwrap();
        assert(match_at(text, pat, i));
    } else {
        assert forall|i: int| !match_at(text, pat, i) by {
            if i >= 0 {
                assert(!match_at(text, pat, i));
            }
        }
    }
}

/// A match at `i` with no match before it is what [`find_index`] returns.
pub proof fn lemma_find_index_first(text: Seq<char>, pat: Seq<char>, i: int)
    requires
        match_at(text, pat, i),
        forall|j: int| 0 <= j < i ==> !match_at(text, pat, j),
    ensures
        find_index(text, pat) == Some(i),
{
    lemma_find_index_props(text, pat);
    if find_index(text, pat) is Some {
        let k = find_index(text, pat).unwrap();
        assert(!(k < i));
        assert(!(i < k));
    } else {
        assert(!match_at(text, pat, i));
    }
}

/// Whether `pat` matches `text` at offset `i`, checked character by character.
fn match_here(text: &str, pat: &str, i: usize) -> (b: bool)
    requires
        i + pat@.len() <= text@.len(),
        text@.len() <= usize::MAX,
    ensures
        b == match_at(text@, pat@, i as int),
{
    let m = pat.unicode_len();
    let mut j: usize = 0;
    while j < m
        invariant
            0 <= j <= m,
            m == pat@.len(),
            i + m <= text@.len(),
            text@.len() <= usize::MAX,
            forall|k: int| 0 <= k < j ==> text@[i + k] == pat@[k],
        decreases m - j,
    {
        if text.get_char(i + j) != pat.get_char(j) {
            proof {
                assert(text@.subrange(i as int, i + pat@.len())[j as int] == text@[i + j]);
            }
            return false;
        }
        j = j + 1;
    }
    proof {
        assert(text@.subrange(i as int, i + pat@.len()) =~= pat@);
    }
    true
}

/// The earliest character offset where `pat` occurs in `text`, or `None` if
/// it occurs nowhere; the verified counterpart of `str::find`.
pub fn find_str(text: &str, pat: &str) -> (r: Option<usize>)
    ensures
        match r {
            Some(i) => find_index(text@, pat@) == Some(i as int),
            None => find_index(text@, pat@) is None,
        },
{
    let n = text.unicode_len();
    let m = pat.unicode_len();
    if m == 0 {
        proof {
            assert(text@.subrange(0, 0) =~= pat@);
        }
        return Some(0);
    }
    if m > n {
        proof {
            lemma_find_from_props(text@, pat@, 0);
            if find_index(text@, pat@) is Some {
                let k = find_index(text@, pat@).unwrap();
                assert(match_at(text@, pat@, k));
            }
        }
        return None;
    }
    let mut i: usize = 0;
    while i <= n - m
        invariant
            0 <= i <= n - m + 1,
            1 <= m <= n,
            n == text@.len(),
            m == pat@.len(),
            forall|j: int| 0 <= j < i ==> !match_at(text@, pat@, j),
        decreases n - m + 1 - i,
    {
        if match_here(text, pat, i) {
            proof {
                lemma_find_from_props(text@, pat@, 0);
                if find_index(text@, pat@) is Some {
                    let k = find_index(text@, pat@).unwrap();
                    assert(!(k < i));
                    assert(!(i < k));
                } else {
                    assert(!match_at(text@, pat@, i as int));
                }
            }
            return Some(i);
        }
        i = i + 1;
    }
    proof {
        lemma_find_from_props(text@, pat@, 0);
        if find_index(text@, pat@) is Some {
            let k = find_index(text@, pat@).unwrap();
            assert(!match_at(text@, pat@, k));
        }
    }
    None
}

} // verus!
