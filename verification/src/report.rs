//! Aggregation of editions into a date-ordered report.
//!
//! For each document the date is parsed from its identifier and the optional
//! excerpt is extracted from its text; the first failure aborts the whole
//! run. The surviving editions are sorted by date ascending, stably, so the
//! outcome is a deterministic function of the input sequence.

use vstd::prelude::*;
use crate::date::CalendarDate;
use crate::errors::{Error, ErrorModel};
use crate::quote::spec_extract;
use crate::date::spec_parse_date;

verus! {

/// One dated document with its optional trimmed excerpt.
#[derive(Debug, PartialEq, Eq)]
pub struct Edition {
    pub identifier: String,
    pub date: CalendarDate,
    pub excerpt: Option<String>,
}

/// The mathematical shape of an [`Edition`], with text as `Seq<char>`.
pub struct EditionView {
    pub identifier: Seq<char>,
    pub date: CalendarDate,
    pub excerpt: Option<Seq<char>>,
}

impl EditionView {
    /// Well-formedness: the date is a real Gregorian date, and a present
    /// excerpt is non-empty.
    pub open spec fn wf(self) -> bool {
        self.date.wf() && (self.excerpt matches Some(q) ==> q.len() > 0)
    }
}

impl View for Edition {
    type V = EditionView;

    open spec fn view(&self) -> EditionView {
        EditionView {
            identifier: self.identifier@,
            date: self.date,
            excerpt: match self.excerpt {
                Some(q) => Some(q@),
                None => None,
            },
        }
    }
}

impl DeepView for Edition {
    type V = EditionView;

    open spec fn deep_view(&self) -> EditionView {
        self.view()
    }
}

/// Date order: ascending by year, then month, then day.
pub open spec fn date_le(a: CalendarDate, b: CalendarDate) -> bool {
    a.year < b.year || (a.year == b.year && (a.month < b.month || (a.month == b.month
        && a.day <= b.day)))
}

/// Executable test for [`date_le`].
fn date_le_exec(a: &CalendarDate, b: &CalendarDate) -> (r: bool)
    ensures
        r == date_le(*a, *b),
{
    a.year < b.year || (a.year == b.year && (a.month < b.month || (a.month == b.month
        && a.day <= b.day)))
}

/// Whether the editions of `s` come in non-decreasing date order.
pub open spec fn sorted_by_date(s: Seq<EditionView>) -> bool {
    forall|i: int, j: int| 0 <= i <= j < s.len() ==> date_le(s[i].date, s[j].date)
}

/// `e` inserted into `s` after every edition whose date is not later, so
/// that an insertion into a sorted sequence is stable.
pub open spec fn insert_ordered(e: EditionView, s: Seq<EditionView>) -> Seq<EditionView>
    decreases s.len(),
{
    if s.len() == 0 {
        seq![e]
    } else if date_le(s[0].date, e.date) {
        seq![s[0]] + insert_ordered(e, s.subrange(1, s.len() as int))
    } else {
        seq![e] + s
    }
}

/// `s` sorted by date ascending, stably: the stable insertion sort of `s`.
pub open spec fn spec_sort(s: Seq<EditionView>) -> Seq<EditionView>
    decreases s.len(),
{
    if s.len() == 0 {
        s
    } else {
        insert_ordered(s.last(), spec_sort(s.drop_last()))
    }
}

/// Inserting into a sorted sequence keeps it sorted, adds one element, and
/// adds no element but `e`.
proof fn lemma_insert_ordered_props(e: EditionView, s: Seq<EditionView>)
    requires
        sorted_by_date(s),
    ensures
        insert_ordered(e, s).len() == s.len() + 1,
        sorted_by_date(insert_ordered(e, s)),
        forall|k: int| 0 <= k < insert_ordered(e, s).len() ==> insert_ordered(e, s)[k] == e
            || s.contains(#[trigger] insert_ordered(e, s)[k]),
    decreases s.len(),
{
    let r = insert_ordered(e, s);
    if s.len() == 0 {
        assert(r =~= seq![e]);
        assert(sorted_by_date(r));
    } else if date_le(s[0].date, e.date) {
        let t = s.subrange(1, s.len() as int);
        assert(sorted_by_date(t));
        lemma_insert_ordered_props(e, t);
        let rt = insert_ordered(e, t);
        assert(r =~= seq![s[0]] + rt);
        assert forall|a: int, b: int| 0 <= a <= b < r.len() implies date_le(
            r[a].date,
            r[b].date,
        ) by {
            if a == 0 && b > 0 {
                let x = rt[b - 1];
                if x == e {
                } else {
                    assert(t.contains(x));
                    let w = choose|w: int| 0 <= w < t.len() && t[w] == x;
                    assert(date_le(s[0].date, s[w + 1].date));
                }
            } else if a > 0 {
                assert(date_le(rt[a - 1].date, rt[b - 1].date));
            }
        }
        assert forall|k: int| 0 <= k < r.len() implies r[k] == e || s.contains(
            #[trigger] r[k],
        ) by {
            if k == 0 {
                assert(s[0] == r[0]);
                assert(s.contains(r[0]));
            } else {
                if rt[k - 1] == e {
                } else {
                    let w = choose|w: int| 0 <= w < t.len() && t[w] == rt[k - 1];
                    assert(s[w + 1] == r[k]);
                    assert(s.contains(r[k]));
                }
            }
        }
    } else {
        assert(r =~= seq![e] + s);
        assert(date_le(e.date, s[0].date));
        assert forall|a: int, b: int| 0 <= a <= b < r.len() implies date_le(
            r[a].date,
            r[b].date,
        ) by {
            if a == 0 && b > 0 {
                assert(date_le(s[0].date, s[b - 1].date));
            } else if a > 0 {
                assert(date_le(s[a - 1].date, s[b - 1].date));
            }
        }
        assert forall|k: int| 0 <= k < r.len() implies r[k] == e || s.contains(
            #[trigger] r[k],
        ) by {
            if k > 0 {
                assert(s[k - 1] == r[k]);
                assert(s.contains(r[k]));
            }
        }
    }
}

/// The stable insertion sort returns a sorted sequence of the same length.
pub proof fn lemma_spec_sort_sorted(s: Seq<EditionView>)
    ensures
        spec_sort(s).len() == s.len(),
        sorted_by_date(spec_sort(s)),
    decreases s.len(),
{
    if s.len() > 0 {
        lemma_spec_sort_sorted(s.drop_last());
        lemma_insert_ordered_props(s.last(), spec_sort(s.drop_last()));
    }
}

/// Where the insertion lands: inserting `e` into sorted `s` splits `s` at
/// the first position whose date is later than `e`'s.
proof fn lemma_insert_ordered_at(e: EditionView, s: Seq<EditionView>, j: int)
    requires
        sorted_by_date(s),
        0 <= j <= s.len(),
        forall|k: int| 0 <= k < j ==> date_le(#[trigger] s[k].date, e.date),
        j == s.len() || !date_le(s[j].date, e.date),
    ensures
        insert_ordered(e, s) == s.subrange(0, j) + seq![e] + s.subrange(j, s.len() as int),
    decreases j,
{
    if j == 0 {
        if s.len() == 0 {
            assert(insert_ordered(e, s) =~= s.subrange(0, 0) + seq![e] + s.subrange(0, 0));
        } else {
            assert(insert_ordered(e, s) =~= s.subrange(0, 0) + seq![e] + s.subrange(
                0,
                s.len() as int,
            ));
        }
    } else {
        let t = s.subrange(1, s.len() as int);
        assert(sorted_by_date(t));
        assert(date_le(s[0].date, e.date));
        assert(forall|k: int| 0 <= k < j - 1 ==> date_le(#[trigger] t[k].date, e.date));
        lemma_insert_ordered_at(e, t, j - 1);
        assert(seq![s[0]] + (t.subrange(0, j - 1) + seq![e] + t.subrange(j - 1, t.len() as int))
            =~= s.subrange(0, j) + seq![e] + s.subrange(j, s.len() as int));
    }
}

/// Sorts the editions by date ascending, stably.
fn sort_editions(v: &mut Vec<Edition>)
    ensures
        final(v).deep_view() == spec_sort(old(v).deep_view()),
        final(v)@.len() == old(v)@.len(),
{
    let ghost orig = v.deep_view();
    if v.len() <= 1 {
        proof {
            if orig.len() == 1 {
                assert(orig.drop_last() =~= Seq::<EditionView>::empty());
                assert(spec_sort(orig.drop_last()) =~= Seq::<EditionView>::empty());
                assert(spec_sort(orig) =~= orig);
            }
        }
        return ;
    }
    let mut i: usize = 1;
    proof {
        assert(orig.take(1).drop_last() =~= Seq::<EditionView>::empty());
        assert(spec_sort(orig.take(1).drop_last()) =~= Seq::<EditionView>::empty());
        assert(orig.take(1).last() == orig[0]);
        assert(spec_sort(orig.take(1)) =~= seq![orig[0]]);
        assert(v.deep_view() =~= spec_sort(orig.take(1)) + orig.skip(1));
    }
    while i < v.len()
        invariant
            1 <= i <= v@.len(),
            v@.len() == orig.len(),
            orig == old(v).deep_view(),
            v.deep_view() == spec_sort(orig.take(i as int)) + orig.skip(i as int),
        decreases v@.len() - i,
    {
        let ghost sorted_prefix = spec_sort(orig.take(i as int));
        proof {
            lemma_spec_sort_sorted(orig.take(i as int));
            assert(v.deep_view()[i as int] == orig.skip(i as int)[0]);
            assert(v.deep_view()[i as int] == orig[i as int]);
        }
        let mut j: usize = 0;
        while j < i && date_le_exec(&v[j].date, &v[i].date)
            invariant
                0 <= j <= i < v@.len(),
                v.deep_view() == sorted_prefix + orig.skip(i as int),
                sorted_prefix.len() == i,
                v.deep_view()[i as int] == orig[i as int],
                forall|k: int| 0 <= k < j ==> date_le(
                    #[trigger] sorted_prefix[k].date,
                    orig[i as int].date,
                ),
            decreases i - j,
        {
            proof {
                assert(v.deep_view()[j as int] == sorted_prefix[j as int]);
                assert(v@[j as int].date == v.deep_view()[j as int].date);
                assert(v@[i as int].date == v.deep_view()[i as int].date);
            }
            j = j + 1;
        }
        proof {
            assert(j == i || !date_le(sorted_prefix[j as int].date, orig[i as int].date)) by {
                if j < i {
                    assert(v@[j as int].date == v.deep_view()[j as int].date);
                    assert(v@[i as int].date == v.deep_view()[i as int].date);
                }
            }
            lemma_insert_ordered_at(orig[i as int], sorted_prefix, j as int);
            assert(orig.take(i + 1).drop_last() =~= orig.take(i as int));
            assert(orig.take(i + 1).last() == orig[i as int]);
            assert(sorted_prefix.subrange(j as int, sorted_prefix.len() as int)
                == sorted_prefix.subrange(j as int, i as int));
            assert(spec_sort(orig.take(i + 1)) == sorted_prefix.subrange(0, j as int) + seq![
                orig[i as int],
            ] + sorted_prefix.subrange(j as int, i as int));
        }
        let ghost pre = v@;
        let ghost dvpre = v.deep_view();
        if j < i {
            let e = v.remove(i);
            v.insert(j, e);
            proof {
                assert(e == pre[i as int]);
                assert(e.deep_view() == dvpre[i as int]);
                assert(dvpre[i as int] == orig[i as int]);
                assert(v@ =~= pre.subrange(0, j as int) + seq![e] + pre.subrange(
                    j as int,
                    i as int,
                ) + pre.subrange(i + 1, pre.len() as int));
                assert forall|k: int| 0 <= k < v.deep_view().len() implies v.deep_view()[k] == (
                sorted_prefix.subrange(0, j as int) + seq![orig[i as int]]
                    + sorted_prefix.subrange(j as int, i as int) + orig.skip(i + 1))[k] by {
                    assert(v.deep_view()[k] == v@[k].deep_view());
                    if k < j {
                        assert(v@[k] == pre[k]);
                        assert(pre[k].deep_view() == dvpre[k]);
                        assert(dvpre[k] == sorted_prefix[k]);
                    } else if k == j {
                        assert(v@[k] == e);
                    } else if k <= i {
                        assert(v@[k] == pre[k - 1]);
                        assert(pre[k - 1].deep_view() == dvpre[k - 1]);
                        assert(dvpre[k - 1] == sorted_prefix[k - 1]);
                    } else {
                        assert(v@[k] == pre[k]);
                        assert(pre[k].deep_view() == dvpre[k]);
                        assert(dvpre[k] == orig.skip(i as int)[k - i]);
                        assert(dvpre[k] == orig.skip(i + 1)[k - i - 1]);
                    }
                }
                assert(v.deep_view() =~= sorted_prefix.subrange(0, j as int) + seq![
                    orig[i as int],
                ] + sorted_prefix.subrange(j as int, i as int) + orig.skip(i + 1));
            }
        } else {
            proof {
                assert(sorted_prefix.subrange(0, j as int) == sorted_prefix);
                assert(sorted_prefix.subrange(j as int, i as int) =~= Seq::<
                    EditionView,
                >::empty());
                assert(orig.skip(i as int) =~= seq![orig[i as int]] + orig.skip(i + 1));
            }
        }
        proof {
            assert(v.deep_view() =~= spec_sort(orig.take(i + 1)) + orig.skip(i + 1));
        }
        i = i + 1;
    }
    proof {
        assert(orig.take(orig.len() as int) =~= orig);
        assert(orig.skip(orig.len() as int) =~= Seq::<EditionView>::empty());
        assert(v.deep_view() =~= spec_sort(orig));
    }
}

/// Every element of the sorted sequence comes from the original sequence.
proof fn lemma_spec_sort_membership(s: Seq<EditionView>)
    ensures
        forall|k: int| 0 <= k < spec_sort(s).len() ==> s.contains(#[trigger] spec_sort(s)[k]),
    decreases s.len(),
{
    if s.len() > 0 {
        let shorter = s.drop_last();
        lemma_spec_sort_membership(shorter);
        lemma_spec_sort_sorted(shorter);
        lemma_insert_ordered_props(s.last(), spec_sort(shorter));
        assert forall|k: int| 0 <= k < spec_sort(s).len() implies s.contains(
            #[trigger] spec_sort(s)[k],
        ) by {
            let x = spec_sort(s)[k];
            if x == s.last() {
                assert(s[s.len() - 1] == x);
            } else {
                assert(spec_sort(shorter).contains(x));
                let w = choose|w: int| 0 <= w < spec_sort(shorter).len() && spec_sort(shorter)[w]
                    == x;
                assert(shorter.contains(x));
                let v = choose|v: int| 0 <= v < shorter.len() && shorter[v] == x;
                assert(s[v] == x);
            }
        }
    }
}

/// The outcome for one document: its edition, or the error that aborts the
/// run.
pub open spec fn spec_edition(id: Seq<char>, text: Seq<char>) -> Result<EditionView, ErrorModel> {
    match spec_parse_date(id) {
        Err(e) => Err(e),
        Ok(date) => match spec_extract(text) {
            Err(e) => Err(e),
            Ok(q) => Ok(EditionView { identifier: id, date, excerpt: q }),
        },
    }
}

/// The editions of `docs` in input order, or the first error.
pub open spec fn spec_editions(docs: Seq<(Seq<char>, Seq<char>)>) -> Result<
    Seq<EditionView>,
    ErrorModel,
>
    decreases docs.len(),
{
    if docs.len() == 0 {
        Ok(Seq::empty())
    } else {
        match spec_editions(docs.drop_last()) {
            Err(e) => Err(e),
            Ok(s) => match spec_edition(docs.last().0, docs.last().1) {
                Err(e) => Err(e),
                Ok(ev) => Ok(s.push(ev)),
            },
        }
    }
}

/// How many editions of `s` have an excerpt.
pub open spec fn count_present(s: Seq<EditionView>) -> int
    decreases s.len(),
{
    if s.len() == 0 {
        0
    } else {
        count_present(s.drop_last()) + if s.last().excerpt is Some {
            1int
        } else {
            0int
        }
    }
}

/// The excerpt count never exceeds the edition count.
proof fn lemma_count_present_bounds(s: Seq<EditionView>)
    ensures
        0 <= count_present(s) <= s.len(),
    decreases s.len(),
{
    if s.len() > 0 {
        lemma_count_present_bounds(s.drop_last());
    }
}

/// A failing document fails the whole run: once `spec_edition` errs at
/// position `k` after an error-free prefix, `spec_editions` errs on the
/// whole sequence with that same error.
proof fn lemma_spec_editions_error(docs: Seq<(Seq<char>, Seq<char>)>, k: int, e: ErrorModel)
    requires
        0 <= k < docs.len(),
        spec_editions(docs.take(k)) is Ok,
        spec_edition(docs[k].0, docs[k].1) == Err::<EditionView, ErrorModel>(e),
    ensures
        spec_editions(docs) == Err::<Seq<EditionView>, ErrorModel>(e),
    decreases docs.len(),
{
    if docs.len() == k + 1 {
        assert(docs.drop_last() =~= docs.take(k));
        assert(docs.last() == docs[k]);
    } else {
        let shorter = docs.drop_last();
        assert(shorter.take(k) =~= docs.take(k));
        assert(shorter[k] == docs[k]);
        lemma_spec_editions_error(shorter, k, e);
    }
}

/// Every edition an error-free run produces is well-formed: its date is a
/// real Gregorian date, and its excerpt, if present, is non-empty.
proof fn lemma_spec_editions_wf(docs: Seq<(Seq<char>, Seq<char>)>)
    requires
        spec_editions(docs) is Ok,
    ensures
        forall|k: int| 0 <= k < spec_editions(docs)->Ok_0.len() ==> (
        #[trigger] spec_editions(docs)->Ok_0[k]).wf(),
    decreases docs.len(),
{
    if docs.len() > 0 {
        lemma_spec_editions_wf(docs.drop_last());
        crate::date::lemma_spec_parse_date_ok_wf(docs.last().0);
    }
}

/// What a whole run returns: the sorted editions with the two counts, or
/// the first error.
pub open spec fn spec_aggregate(docs: Seq<(Seq<char>, Seq<char>)>) -> Result<
    (Seq<EditionView>, int, int),
    ErrorModel,
> {
    match spec_editions(docs) {
        Err(e) => Err(e),
        Ok(evs) => Ok((spec_sort(evs), count_present(evs), evs.len() as int)),
    }
}

/// The aggregated outcome of one run: the editions sorted by date ascending,
/// the count of editions with an excerpt, and the total count.
#[derive(Debug, PartialEq, Eq)]
pub struct Report {
    pub editions: Vec<Edition>,
    pub with_excerpt: usize,
    pub total: usize,
}

/// Processes every document of `docs`, a sequence of `(identifier, text)`
/// pairs: parses each identifier's date prefix, extracts the optional
/// excerpt of each text, and collects the editions sorted by date ascending
/// together with the excerpt-present and total counts.
///
/// The first failing document aborts the run with its error; no partial
/// report is produced.
pub fn aggregate(docs: &Vec<(String, String)>) -> (r: Result<Report, Error>)
    ensures
        match r {
            Ok(rep) => spec_aggregate(docs.deep_view()) == Ok::<
                (Seq<EditionView>, int, int),
                ErrorModel,
            >((rep.editions.deep_view(), rep.with_excerpt as int, rep.total as int))
                && sorted_by_date(rep.editions.deep_view()) && rep.total == rep.editions@.len()
                && rep.with_excerpt <= rep.total && forall|i: int|
                0 <= i < rep.editions@.len() ==> (
                #[trigger] rep.editions.deep_view()[i]).wf(),
            Err(e) => spec_aggregate(docs.deep_view()) == Err::<
                (Seq<EditionView>, int, int),
                ErrorModel,
            >(e@),
        },
{
    let ghost dv = docs.deep_view();
    let mut editions: Vec<Edition> = Vec::new();
    let mut with_excerpt: usize = 0;
    let mut idx: usize = 0;
    proof {
        assert(dv.take(0) =~= Seq::<(Seq<char>, Seq<char>)>::empty());
        assert(editions.deep_view() =~= Seq::<EditionView>::empty());
    }
    while idx < docs.len()
        invariant
            0 <= idx <= docs@.len(),
            dv == docs.deep_view(),
            dv.len() == docs@.len(),
            editions@.len() == idx,
            spec_editions(dv.take(idx as int)) == Ok::<Seq<EditionView>, ErrorModel>(
                editions.deep_view(),
            ),
            with_excerpt == count_present(editions.deep_view()),
            with_excerpt <= idx,
        decreases docs@.len() - idx,
    {
        let id: &String = &docs[idx].0;
        let text: &String = &docs[idx].1;
        proof {
            assert(dv[idx as int] == (id@, text@));
        }
        let date = match crate::date::parse_date(id.as_str()) {
            Ok(d) => d,
            Err(e) => {
                proof {
                    lemma_spec_editions_error(dv, idx as int, e@);
                }
                return Err(e);
            },
        };
        let found = match crate::quote::extract_quote_of_the_week(text.as_str()) {
            Ok(q) => q,
            Err(e) => {
                proof {
                    lemma_spec_editions_error(dv, idx as int, e@);
                }
                return Err(e);
            },
        };
        let excerpt: Option<String> = match found {
            Some(q) => {
                proof {
                    lemma_count_present_bounds(editions.deep_view());
                }
                with_excerpt = with_excerpt + 1;
                Some(q.to_owned())
            },
            None => None,
        };
        let ghost before = editions.deep_view();
        let ghost exview: Option<Seq<char>> = match &excerpt {
            Some(q) => Some(q@),
            None => None,
        };
        editions.push(Edition { identifier: id.clone(), date, excerpt });
        proof {
            let ev = EditionView { identifier: id@, date, excerpt: exview };
            assert(editions.deep_view() =~= before.push(ev));
            assert(editions.deep_view().drop_last() =~= before);
            assert(spec_edition(dv[idx as int].0, dv[idx as int].1) == Ok::<
                EditionView,
                ErrorModel,
            >(ev));
            assert(dv.take(idx + 1).drop_last() =~= dv.take(idx as int));
            assert(dv.take(idx + 1).last() == dv[idx as int]);
        }
        idx = idx + 1;
    }
    proof {
        assert(dv.take(dv.len() as int) =~= dv);
    }
    let total = editions.len();
    let ghost evs = editions.deep_view();
    sort_editions(&mut editions);
    proof {
        lemma_spec_sort_sorted(evs);
        lemma_spec_editions_wf(dv);
        lemma_spec_sort_membership(evs);
        assert forall|i: int| 0 <= i < editions@.len() implies (
        #[trigger] editions.deep_view()[i]).wf() by {
            let x = editions.deep_view()[i];
            assert(evs.contains(x));
            let w = choose|w: int| 0 <= w < evs.len() && evs[w] == x;
        }
    }
    Ok(Report { editions, with_excerpt, total })
}

/// Law: aggregation is deterministic. Any two runs over the same document
/// sequence yield the same sorted collection and the same counts, because
/// the outcome is the mathematical function [`spec_aggregate`] of the input.
pub proof fn lemma_aggregate_deterministic(
    docs: Seq<(Seq<char>, Seq<char>)>,
    r1: Result<(Seq<EditionView>, int, int), ErrorModel>,
    r2: Result<(Seq<EditionView>, int, int), ErrorModel>,
)
    requires
        r1 == spec_aggregate(docs),
        r2 == spec_aggregate(docs),
    ensures
        r1 == r2,
{
}

/// Law: the collection of a successful run is sorted: each adjacent pair of
/// editions is in non-decreasing date order.
pub proof fn lemma_aggregate_sorted(
    docs: Seq<(Seq<char>, Seq<char>)>,
    evs: Seq<EditionView>,
    with_excerpt: int,
    total: int,
)
    requires
        spec_aggregate(docs) == Ok::<(Seq<EditionView>, int, int), ErrorModel>(
            (evs, with_excerpt, total),
        ),
    ensures
        forall|i: int| 0 <= i < evs.len() - 1 ==> date_le(#[trigger] evs[i].date, evs[i + 1].date),
{
    let source = spec_editions(docs)->Ok_0;
    lemma_spec_sort_sorted(source);
}

} // verus!
