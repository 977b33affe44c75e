//! The reconciliation engine: novelty detection against the stored record,
//! the idempotent merge that re-normalizes the store, and the plan for one
//! run, including the silent bootstrap when no store exists yet.

use vstd::prelude::*;

use crate::announcement::Announcement;
use crate::announcement::has_key;
use crate::announcement::key_eq;
use crate::announcement::key_le;
use crate::announcement::normalized;
use crate::announcement::sorted_ann;
use crate::announcement::unique_keys;
use crate::order::dedup_by_datetime;
use crate::order::dedup_spec;
use crate::order::insert_sorted;
use crate::order::sort_by_datetime;
use crate::order::sort_spec;

verus! {

/// The canonical stored form of any sequence: time-sorted, then swept of
/// entries whose datetime equals the previous entry's.
pub open spec fn normalize_spec(s: Seq<Announcement>) -> Seq<Announcement> {
    dedup_spec(sort_spec(s))
}

/// Merging concatenates the stored record before the fresh one and
/// normalizes; the stable sort makes the stored entry of a shared datetime
/// the survivor.
pub open spec fn merge_spec(known: Seq<Announcement>, current: Seq<Announcement>) -> Seq<
    Announcement,
> {
    normalize_spec(known + current)
}

/// The novelty set: the fresh entries whose datetime the stored record does
/// not hold, in their order within `current`.
pub open spec fn novel_spec(current: Seq<Announcement>, known: Seq<Announcement>) -> Seq<
    Announcement,
> {
    current.filter(|a: Announcement| !has_key(known, a))
}

/// Whether some entry of `v` has the same datetime as `a`.
pub fn contains_datetime(v: &Vec<Announcement>, a: &Announcement) -> (r: bool)
    ensures
        r == has_key(v@, *a),
{
    let mut i: usize = 0;
    while i < v.len()
        invariant
            i <= v@.len(),
            forall|k: int| 0 <= k < i ==> !key_eq(v@[k], *a),
        decreases v@.len() - i,
    {
        if v[i].same_identity(a) {
            return true;
        }
        i = i + 1;
    }
    false
}

/// The entries of `current` not yet in `known`, by datetime, in the order
/// they appear in `current`.
pub fn novel_announcements(current: &Vec<Announcement>, known: &Vec<Announcement>) -> (r: Vec<
    Announcement,
>)
    ensures
        r@ == novel_spec(current@, known@),
{
    let ghost pred = |a: Announcement| !has_key(known@, a);
    let mut r: Vec<Announcement> = Vec::new();
    let mut j: usize = 0;
    proof {
        reveal(Seq::filter);
        assert(current@.take(0).filter(pred) =~= Seq::<Announcement>::empty());
    }
    while j < current.len()
        invariant
            j <= current@.len(),
            r@ == current@.take(j as int).filter(|a: Announcement| !has_key(known@, a)),
        decreases current@.len() - j,
    {
        let keep = !contains_datetime(known, &current[j]);
        if keep {
            r.push(current[j].duplicate());
        }
        proof {
            reveal(Seq::filter);
            assert(current@.take(j + 1).drop_last() =~= current@.take(j as int));
            assert(current@.take(j + 1).last() == current@[j as int]);
        }
        j = j + 1;
    }
    proof {
        assert(current@.take(current@.len() as int) =~= current@);
    }
    r
}

/// Merge the fresh entries into the stored record: concatenate stored before
/// fresh, sort stably by datetime, and keep the first of each run of equal
/// datetimes, so a stored entry wins over a fresh one with the same datetime.
pub fn merge_announcements(known: Vec<Announcement>, current: Vec<Announcement>) -> (r: Vec<
    Announcement,
>)
    ensures
        r@ == merge_spec(known@, current@),
{
    let ghost k = known@;
    let ghost c = current@;
    let mut all = known;
    let mut fresh = current;
    all.append(&mut fresh);
    proof {
        assert(all@ == k + c);
    }
    let sorted = sort_by_datetime(all);
    dedup_by_datetime(sorted)
}

/// What one run decides: the announcements to report as new, and the exact
/// collection to persist.
pub struct RunPlan {
    /// Fresh entries not in the stored record, ascending by datetime when
    /// the fresh sequence was.
    pub novel: Vec<Announcement>,
    /// The collection to persist: the merge of stored and fresh.
    pub store: Vec<Announcement>,
}

impl RunPlan {
    /// The distinguished run outcome: whether anything new was found.
    pub fn found_novelty(&self) -> (r: bool)
        ensures
            r == (self.novel@.len() > 0),
    {
        self.novel.len() > 0
    }
}

/// One reconciliation step against an existing store: compute the novelty
/// set of `current` against `known`, and the merged collection to persist.
pub fn reconcile(known: Vec<Announcement>, current: Vec<Announcement>) -> (r: RunPlan)
    ensures
        r.novel@ == novel_spec(current@, known@),
        r.store@ == merge_spec(known@, current@),
{
    let novel = novel_announcements(&current, &known);
    let store = merge_announcements(known, current);
    RunPlan { novel, store }
}

/// Plan one full run. `stored` is the loaded record, or `None` when no store
/// exists yet; `fetched` is the freshly extracted sequence. When no store
/// exists the fetch seeds it and the run reports nothing as new: the first
/// run is silent by design.
pub fn plan_run(stored: Option<Vec<Announcement>>, fetched: Vec<Announcement>) -> (r: RunPlan)
    ensures
        stored matches Some(known) ==> r.novel@ == novel_spec(fetched@, known@)
            && r.store@ == merge_spec(known@, fetched@),
        stored is None ==> r.novel@.len() == 0 && r.store@ == normalize_spec(fetched@),
{
    match stored {
        Some(known) => reconcile(known, fetched),
        None => {
            let sorted = sort_by_datetime(fetched);
            let store = dedup_by_datetime(sorted);
            RunPlan { novel: Vec::new(), store }
        },
    }
}

/// Sort invariant law: the merge of any two sequences is time-sorted with
/// pairwise distinct datetimes.
pub proof fn lemma_merge_normalized(known: Seq<Announcement>, current: Seq<Announcement>)
    ensures
        normalized(merge_spec(known, current)),
{
    crate::order::lemma_sort_sorted(known + current);
    crate::order::lemma_dedup_sorted_unique(sort_spec(known + current));
}

/// Sort invariant law for seeding: the canonical form of any sequence —
/// what a bootstrap run persists — is time-sorted with pairwise distinct
/// datetimes.
pub proof fn lemma_normalize_normalized(s: Seq<Announcement>)
    ensures
        normalized(normalize_spec(s)),
{
    crate::order::lemma_sort_sorted(s);
    crate::order::lemma_dedup_sorted_unique(sort_spec(s));
}

/// Sort invariant law for loading: sorting a stored record whose datetimes
/// are pairwise distinct yields a time-sorted record with pairwise distinct
/// datetimes.
pub proof fn lemma_load_normalized(s: Seq<Announcement>)
    requires
        unique_keys(s),
    ensures
        normalized(sort_spec(s)),
{
    crate::order::lemma_sort_sorted(s);
    crate::order::lemma_sort_unique(s);
}

/// The merge neither adds nor loses datetimes: a datetime is in the merge
/// exactly when it is in the stored or in the fresh sequence.
pub proof fn lemma_merge_keys(known: Seq<Announcement>, current: Seq<Announcement>, b: Announcement)
    ensures
        has_key(merge_spec(known, current), b) <==> (has_key(known, b) || has_key(current, b)),
{
    crate::order::lemma_dedup_has_key(sort_spec(known + current), b);
    crate::order::lemma_sort_has_key(known + current, b);
    crate::announcement::lemma_has_key_concat(known, current, b);
}

/// Idempotent merge law: merging a record with itself yields a result
/// identical, as a set of datetimes, to the record.
pub proof fn lemma_merge_idempotent(known: Seq<Announcement>)
    ensures
        forall|b: Announcement| #[trigger]
            has_key(merge_spec(known, known), b) <==> has_key(known, b),
        normalized(merge_spec(known, known)),
{
    assert forall|b: Announcement| #[trigger]
        has_key(merge_spec(known, known), b) <==> has_key(known, b) by {
        lemma_merge_keys(known, known, b);
    }
    lemma_merge_normalized(known, known);
}

/// Idempotent merge law, canonical case: merging a record in canonical form
/// with itself gives the record back unchanged — so re-persisting the merge
/// on every run, even a run that found nothing new, is safe.
pub proof fn lemma_merge_idempotent_normalized(known: Seq<Announcement>)
    requires
        normalized(known),
    ensures
        merge_spec(known, known) == known,
{
    assert forall|i: int| 0 <= i < known.len() implies has_key(known, #[trigger] known[i]) by {
        assert(key_eq(known[i], known[i]));
    }
    crate::order::lemma_sort_dedup_absorb(known, known);
}

/// Dedup stability law: of two records with the same datetime, merging the
/// stored one with the fresh one keeps exactly the stored record, whatever
/// their contents or links.
pub proof fn lemma_dedup_stability(x: Announcement, y: Announcement)
    requires
        key_eq(x, y),
    ensures
        merge_spec(seq![x], seq![y]) == seq![x],
{
    let two = seq![x] + seq![y];
    assert(two =~= seq![x, y]);
    assert(two.drop_last() =~= seq![x]);
    assert(seq![x].drop_last() =~= Seq::<Announcement>::empty());
    assert(sort_spec(Seq::<Announcement>::empty()) == Seq::<Announcement>::empty());
    assert(sort_spec(seq![x]) == insert_sorted(Seq::<Announcement>::empty(), x));
    assert(insert_sorted(Seq::<Announcement>::empty(), x) =~= seq![x]);
    assert(key_le(x, y));
    assert(sort_spec(two) =~= seq![x].push(y));
    assert(sort_spec(two) =~= seq![x, y]);
    assert(dedup_spec(seq![x, y]) == dedup_spec(seq![x, y].drop_last()));
    assert(seq![x, y].drop_last() =~= seq![x]);
    assert(dedup_spec(seq![x]) =~= seq![x]);
}

/// Novelty law, disjoint case: when the stored record holds none of the
/// fresh datetimes, everything fetched is novel.
pub proof fn lemma_novelty_disjoint(current: Seq<Announcement>, known: Seq<Announcement>)
    requires
        forall|i: int| 0 <= i < current.len() ==> !has_key(known, #[trigger] current[i]),
    ensures
        novel_spec(current, known) == current,
    decreases current.len(),
{
    reveal(Seq::filter);
    if current.len() > 0 {
        assert(forall|i: int|
            0 <= i < current.drop_last().len() ==> !has_key(known, #[trigger] current.drop_last()[i]));
        lemma_novelty_disjoint(current.drop_last(), known);
        assert(!has_key(known, current.last()));
        assert(novel_spec(current, known) =~= current);
    } else {
        assert(novel_spec(current, known) =~= current);
    }
}

/// An upper bound on every element survives filtering.
proof fn lemma_filter_ub(s: Seq<Announcement>, p: spec_fn(Announcement) -> bool, b: Announcement)
    requires
        forall|i: int| 0 <= i < s.len() ==> key_le(#[trigger] s[i], b),
    ensures
        forall|i: int| 0 <= i < s.filter(p).len() ==> key_le(#[trigger] s.filter(p)[i], b),
    decreases s.len(),
{
    reveal(Seq::filter);
    if s.len() > 0 {
        assert(forall|i: int| 0 <= i < s.drop_last().len() ==> key_le(#[trigger] s.drop_last()[i], b));
        lemma_filter_ub(s.drop_last(), p, b);
        if p(s.last()) {
            let r0 = s.drop_last().filter(p);
            assert forall|i: int| 0 <= i < r0.push(s.last()).len() implies key_le(
                #[trigger] r0.push(s.last())[i],
                b,
            ) by {
                if i == r0.len() {
                    assert(key_le(s[s.len() - 1], b));
                }
            }
        }
    }
}

/// Filtering a time-ordered sequence keeps it time-ordered.
proof fn lemma_filter_sorted(s: Seq<Announcement>, p: spec_fn(Announcement) -> bool)
    requires
        sorted_ann(s),
    ensures
        sorted_ann(s.filter(p)),
    decreases s.len(),
{
    reveal(Seq::filter);
    if s.len() > 0 {
        assert(sorted_ann(s.drop_last()));
        lemma_filter_sorted(s.drop_last(), p);
        if p(s.last()) {
            assert(forall|i: int|
                0 <= i < s.drop_last().len() ==> key_le(#[trigger] s.drop_last()[i], s.last()));
            lemma_filter_ub(s.drop_last(), p, s.last());
            let r0 = s.drop_last().filter(p);
            assert forall|i: int, j: int| 0 <= i < j < r0.push(s.last()).len() implies key_le(
                r0.push(s.last())[i],
                r0.push(s.last())[j],
            ) by {}
        }
    }
}

/// Novelty order law: when the fresh sequence is ascending by datetime, so
/// is the novelty set — notifications go out in chronological order.
pub proof fn lemma_novelty_sorted(current: Seq<Announcement>, known: Seq<Announcement>)
    requires
        sorted_ann(current),
    ensures
        sorted_ann(novel_spec(current, known)),
{
    lemma_filter_sorted(current, |a: Announcement| !has_key(known, a));
}

/// Novelty law, covered case: when every fresh datetime is already stored,
/// nothing is novel.
pub proof fn lemma_novelty_covered(current: Seq<Announcement>, known: Seq<Announcement>)
    requires
        forall|i: int| 0 <= i < current.len() ==> has_key(known, #[trigger] current[i]),
    ensures
        novel_spec(current, known) == Seq::<Announcement>::empty(),
    decreases current.len(),
{
    reveal(Seq::filter);
    if current.len() > 0 {
        assert(forall|i: int|
            0 <= i < current.drop_last().len() ==> has_key(known, #[trigger] current.drop_last()[i]));
        lemma_novelty_covered(current.drop_last(), known);
        assert(has_key(known, current.last()));
    }
}

} // verus!
