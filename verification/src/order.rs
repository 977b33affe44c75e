//! Time-ordering of announcement sequences: a stable sort by datetime and a
//! first-wins sweep of adjacent entries with equal datetimes.
//!
//! Stability matters: the reconciliation engine concatenates the stored
//! record before the freshly fetched one, so of two entries with the same
//! datetime the stored one sorts first and survives deduplication.

use vstd::prelude::*;

use crate::announcement::Announcement;
use crate::announcement::has_key;
use crate::announcement::key_eq;
use crate::announcement::key_le;
use crate::announcement::sorted_ann;
use crate::announcement::unique_keys;

verus! {

/// Insert `a` into `s` after every element at or before it (so after any
/// element with an equal key: this is what makes the sort stable).
pub open spec fn insert_sorted(s: Seq<Announcement>, a: Announcement) -> Seq<Announcement>
    decreases s.len(),
{
    if s.len() == 0 {
        seq![a]
    } else if key_le(s.last(), a) {
        s.push(a)
    } else {
        insert_sorted(s.drop_last(), a).push(s.last())
    }
}

/// Stable sort by datetime: elements are inserted left to right, each landing
/// after all earlier elements with keys at or before its own.
pub open spec fn sort_spec(s: Seq<Announcement>) -> Seq<Announcement>
    decreases s.len(),
{
    if s.len() == 0 {
        Seq::empty()
    } else {
        insert_sorted(sort_spec(s.drop_last()), s.last())
    }
}

/// Drop every element whose datetime equals that of the element just before
/// it; in a run of equal datetimes only the first survives.
pub open spec fn dedup_spec(s: Seq<Announcement>) -> Seq<Announcement>
    decreases s.len(),
{
    if s.len() <= 1 {
        s
    } else if key_eq(s.last(), s[s.len() - 2]) {
        dedup_spec(s.drop_last())
    } else {
        dedup_spec(s.drop_last()).push(s.last())
    }
}

/// Where `insert_sorted` puts the new element: at the lowest index `k` whose
/// whole suffix is strictly after `a`.
proof fn lemma_insert_sorted_at(s: Seq<Announcement>, a: Announcement, k: int)
    requires
        0 <= k <= s.len(),
        forall|i: int| k <= i < s.len() ==> !key_le(#[trigger] s[i], a),
        k > 0 ==> key_le(s[k - 1], a),
    ensures
        insert_sorted(s, a) == s.insert(k, a),
    decreases s.len(),
{
    if k == s.len() {
        if s.len() == 0 {
            assert(insert_sorted(s, a) =~= s.insert(k, a));
        } else {
            assert(key_le(s.last(), a));
            assert(insert_sorted(s, a) =~= s.insert(k, a));
        }
    } else {
        assert(!key_le(s.last(), a));
        lemma_insert_sorted_at(s.drop_last(), a, k);
        assert(insert_sorted(s.drop_last(), a).push(s.last()) =~= s.insert(k, a));
    }
}

impl Announcement {
    /// `self` is strictly after `other` in time.
    fn strictly_after(&self, other: &Announcement) -> (r: bool)
        ensures
            r == !key_le(*self, *other),
    {
        !self.at_or_before(other)
    }
}

/// Insert one announcement into a time-ordered vector, after any entry with
/// an equal or earlier datetime.
fn insert_announcement(v: &mut Vec<Announcement>, a: Announcement)
    ensures
        final(v)@ == insert_sorted(old(v)@, a),
{
    let mut k: usize = v.len();
    while k > 0 && v[k - 1].strictly_after(&a)
        invariant
            k <= v@.len(),
            forall|i: int| k <= i < v@.len() ==> !key_le(#[trigger] v@[i], a),
        decreases k,
    {
        k = k - 1;
    }
    proof {
        lemma_insert_sorted_at(v@, a, k as int);
    }
    v.insert(k, a);
}

/// Sort announcements ascending by datetime. The sort is stable: entries
/// with equal datetimes keep their input order.
pub fn sort_by_datetime(v: Vec<Announcement>) -> (r: Vec<Announcement>)
    ensures
        r@ == sort_spec(v@),
{
    let mut rest = v;
    let mut out: Vec<Announcement> = Vec::new();
    let ghost orig: Seq<Announcement> = rest@;
    let full_len: usize = rest.len();
    proof {
        assert(orig.len() == full_len as int);
    }
    let mut j: usize = 0;
    while rest.len() > 0
        invariant
            j <= orig.len(),
            orig.len() <= usize::MAX,
            rest@ == orig.skip(j as int),
            out@ == sort_spec(orig.take(j as int)),
        decreases rest@.len(),
    {
        let a = rest.remove(0);
        proof {
            assert(a == orig[j as int]);
            assert(orig.take(j + 1).drop_last() =~= orig.take(j as int));
            assert(orig.take(j + 1).last() == orig[j as int]);
            assert(orig.skip(j as int).skip(1) =~= orig.skip(j + 1));
        }
        insert_announcement(&mut out, a);
        j = j + 1;
    }
    proof {
        assert(orig.take(j as int) =~= orig);
    }
    out
}

/// The last survivor of the dedup sweep carries the key of the last input
/// element.
proof fn lemma_dedup_last(s: Seq<Announcement>)
    requires
        s.len() > 0,
    ensures
        dedup_spec(s).len() >= 1,
        key_eq(dedup_spec(s).last(), s.last()),
    decreases s.len(),
{
    if s.len() > 1 {
        lemma_dedup_last(s.drop_last());
    }
}

/// Remove every entry whose datetime equals that of the entry just before
/// it; of each run of equal datetimes the first survives.
pub fn dedup_by_datetime(v: Vec<Announcement>) -> (r: Vec<Announcement>)
    ensures
        r@ == dedup_spec(v@),
{
    let mut rest = v;
    let mut out: Vec<Announcement> = Vec::new();
    let ghost orig: Seq<Announcement> = rest@;
    let full_len: usize = rest.len();
    proof {
        assert(orig.len() == full_len as int);
    }
    let mut j: usize = 0;
    while rest.len() > 0
        invariant
            j <= orig.len(),
            orig.len() <= usize::MAX,
            rest@ == orig.skip(j as int),
            out@ == dedup_spec(orig.take(j as int)),
        decreases rest@.len(),
    {
        let a = rest.remove(0);
        proof {
            assert(a == orig[j as int]);
            assert(orig.take(j + 1).drop_last() =~= orig.take(j as int));
            assert(orig.take(j + 1).last() == orig[j as int]);
            assert(orig.skip(j as int).skip(1) =~= orig.skip(j + 1));
            if j > 0 {
                assert(orig.take(j as int).last() == orig[j - 1]);
                lemma_dedup_last(orig.take(j as int));
            }
        }
        if out.len() == 0 {
            out.push(a);
        } else {
            let keep = !out[out.len() - 1].same_identity(&a);
            proof {
                assert(out@.last() == dedup_spec(orig.take(j as int)).last());
            }
            if keep {
                out.push(a);
            }
        }
        j = j + 1;
    }
    proof {
        assert(orig.take(j as int) =~= orig);
    }
    out
}

/// Pushing an element adds exactly its key to the keys present.
proof fn lemma_has_key_push(s: Seq<Announcement>, x: Announcement, b: Announcement)
    ensures
        has_key(s.push(x), b) <==> (has_key(s, b) || key_eq(x, b)),
{
    if has_key(s, b) {
        let i = choose|i: int| 0 <= i < s.len() && key_eq(s[i], b);
        assert(s.push(x)[i] == s[i]);
        assert(has_key(s.push(x), b));
    }
    if key_eq(x, b) {
        assert(s.push(x)[s.len() as int] == x);
        assert(has_key(s.push(x), b));
    }
    if has_key(s.push(x), b) && !key_eq(x, b) {
        let i = choose|i: int| 0 <= i < s.push(x).len() && key_eq(s.push(x)[i], b);
        assert(i < s.len() && s.push(x)[i] == s[i]);
        assert(has_key(s, b));
    }
}

/// Insertion adds exactly the inserted key to the keys present.
proof fn lemma_insert_sorted_has_key(s: Seq<Announcement>, a: Announcement, b: Announcement)
    ensures
        has_key(insert_sorted(s, a), b) <==> (has_key(s, b) || key_eq(a, b)),
        insert_sorted(s, a).len() == s.len() + 1,
    decreases s.len(),
{
    if s.len() == 0 {
        lemma_has_key_push(Seq::empty(), a, b);
        assert(seq![a] =~= Seq::<Announcement>::empty().push(a));
        assert(!has_key(s, b));
    } else if key_le(s.last(), a) {
        lemma_has_key_push(s, a, b);
    } else {
        lemma_insert_sorted_has_key(s.drop_last(), a, b);
        lemma_has_key_push(insert_sorted(s.drop_last(), a), s.last(), b);
        lemma_has_key_push(s.drop_last(), s.last(), b);
        assert(s =~= s.drop_last().push(s.last()));
    }
}

/// Sorting neither adds nor removes datetimes.
pub proof fn lemma_sort_has_key(s: Seq<Announcement>, b: Announcement)
    ensures
        has_key(sort_spec(s), b) <==> has_key(s, b),
        sort_spec(s).len() == s.len(),
    decreases s.len(),
{
    if s.len() > 0 {
        lemma_sort_has_key(s.drop_last(), b);
        lemma_insert_sorted_has_key(sort_spec(s.drop_last()), s.last(), b);
        lemma_has_key_push(s.drop_last(), s.last(), b);
        assert(s =~= s.drop_last().push(s.last()));
    }
}

/// The dedup sweep neither adds nor removes datetimes.
pub proof fn lemma_dedup_has_key(s: Seq<Announcement>, b: Announcement)
    ensures
        has_key(dedup_spec(s), b) <==> has_key(s, b),
    decreases s.len(),
{
    if s.len() > 1 {
        lemma_dedup_has_key(s.drop_last(), b);
        lemma_has_key_push(s.drop_last(), s.last(), b);
        assert(s =~= s.drop_last().push(s.last()));
        if key_eq(s.last(), s[s.len() - 2]) {
            if key_eq(s.last(), b) {
                assert(s.drop_last()[s.len() - 2] == s[s.len() - 2]);
                assert(has_key(s.drop_last(), b));
            }
        } else {
            lemma_has_key_push(dedup_spec(s.drop_last()), s.last(), b);
        }
    }
}

/// An upper bound on every element survives insertion of a bounded element.
proof fn lemma_insert_sorted_ub(s: Seq<Announcement>, a: Announcement, b: Announcement)
    requires
        forall|i: int| 0 <= i < s.len() ==> key_le(#[trigger] s[i], b),
        key_le(a, b),
    ensures
        forall|i: int|
            0 <= i < insert_sorted(s, a).len() ==> key_le(#[trigger] insert_sorted(s, a)[i], b),
    decreases s.len(),
{
    if s.len() == 0 {
    } else if key_le(s.last(), a) {
    } else {
        assert(forall|i: int| 0 <= i < s.drop_last().len() ==> key_le(#[trigger] s.drop_last()[i], b));
        lemma_insert_sorted_ub(s.drop_last(), a, b);
        let r0 = insert_sorted(s.drop_last(), a);
        assert forall|i: int| 0 <= i < r0.push(s.last()).len() implies key_le(
            #[trigger] r0.push(s.last())[i],
            b,
        ) by {
            if i == r0.len() {
                assert(key_le(s[s.len() - 1], b));
            }
        }
    }
}

/// Inserting into a time-ordered sequence keeps it time-ordered.
proof fn lemma_insert_sorted_sorted(s: Seq<Announcement>, a: Announcement)
    requires
        sorted_ann(s),
    ensures
        sorted_ann(insert_sorted(s, a)),
    decreases s.len(),
{
    if s.len() == 0 {
    } else if key_le(s.last(), a) {
        assert forall|i: int, j: int| 0 <= i < j < s.push(a).len() implies key_le(
            s.push(a)[i],
            s.push(a)[j],
        ) by {
            if j < s.len() {
            } else {
                assert(key_le(s[i], s.last()));
            }
        }
    } else {
        assert(sorted_ann(s.drop_last()));
        lemma_insert_sorted_sorted(s.drop_last(), a);
        lemma_insert_sorted_ub(s.drop_last(), a, s.last());
        let r = insert_sorted(s.drop_last(), a).push(s.last());
        assert forall|i: int, j: int| 0 <= i < j < r.len() implies key_le(r[i], r[j]) by {}
    }
}

/// The sorted sequence is indeed time-ordered.
pub proof fn lemma_sort_sorted(s: Seq<Announcement>)
    ensures
        sorted_ann(sort_spec(s)),
    decreases s.len(),
{
    if s.len() > 0 {
        lemma_sort_sorted(s.drop_last());
        lemma_insert_sorted_sorted(sort_spec(s.drop_last()), s.last());
    }
}

/// Sorting a sequence with pairwise distinct datetimes keeps them distinct.
pub proof fn lemma_sort_unique(s: Seq<Announcement>)
    requires
        unique_keys(s),
    ensures
        unique_keys(sort_spec(s)),
    decreases s.len(),
{
    if s.len() > 0 {
        assert(unique_keys(s.drop_last()));
        lemma_sort_unique(s.drop_last());
        assert(!has_key(s.drop_last(), s.last())) by {
            if has_key(s.drop_last(), s.last()) {
                let i = choose|i: int|
                    0 <= i < s.drop_last().len() && key_eq(s.drop_last()[i], s.last());
                assert(key_eq(s[i], s[s.len() - 1]));
            }
        }
        lemma_sort_has_key(s.drop_last(), s.last());
        lemma_insert_sorted_unique(sort_spec(s.drop_last()), s.last());
    }
}

/// Inserting a datetime not yet present keeps datetimes pairwise distinct.
proof fn lemma_insert_sorted_unique(s: Seq<Announcement>, a: Announcement)
    requires
        unique_keys(s),
        !has_key(s, a),
    ensures
        unique_keys(insert_sorted(s, a)),
    decreases s.len(),
{
    if s.len() == 0 {
    } else if key_le(s.last(), a) {
        assert forall|i: int, j: int| 0 <= i < j < s.push(a).len() implies !key_eq(
            s.push(a)[i],
            s.push(a)[j],
        ) by {
            if j == s.len() {
                assert(!key_eq(s[i], a));
            }
        }
    } else {
        assert(unique_keys(s.drop_last()));
        assert(!has_key(s.drop_last(), a)) by {
            if has_key(s.drop_last(), a) {
                let i = choose|i: int|
                    0 <= i < s.drop_last().len() && key_eq(s.drop_last()[i], a);
                assert(key_eq(s[i], a));
            }
        }
        lemma_insert_sorted_unique(s.drop_last(), a);
        lemma_insert_sorted_has_key(s.drop_last(), a, s.last());
        assert(!has_key(s.drop_last(), s.last())) by {
            if has_key(s.drop_last(), s.last()) {
                let i = choose|i: int|
                    0 <= i < s.drop_last().len() && key_eq(s.drop_last()[i], s.last());
                assert(key_eq(s[i], s[s.len() - 1]));
            }
        }
        let r0 = insert_sorted(s.drop_last(), a);
        assert forall|i: int, j: int| 0 <= i < j < r0.push(s.last()).len() implies !key_eq(
            r0.push(s.last())[i],
            r0.push(s.last())[j],
        ) by {
            if j == r0.len() {
                assert(0 <= i < r0.len() && key_eq(r0[i], s.last()) ==> has_key(r0, s.last()));
            }
        }
    }
}

/// An upper bound on every element survives the dedup sweep.
proof fn lemma_dedup_ub(s: Seq<Announcement>, b: Announcement)
    requires
        forall|i: int| 0 <= i < s.len() ==> key_le(#[trigger] s[i], b),
    ensures
        forall|i: int| 0 <= i < dedup_spec(s).len() ==> key_le(#[trigger] dedup_spec(s)[i], b),
        dedup_spec(s).len() <= s.len(),
    decreases s.len(),
{
    if s.len() > 1 {
        assert(forall|i: int| 0 <= i < s.drop_last().len() ==> key_le(#[trigger] s.drop_last()[i], b));
        lemma_dedup_ub(s.drop_last(), b);
    }
}

/// On a time-ordered input the dedup sweep yields the canonical form:
/// time-ordered with pairwise distinct datetimes.
pub proof fn lemma_dedup_sorted_unique(s: Seq<Announcement>)
    requires
        sorted_ann(s),
    ensures
        sorted_ann(dedup_spec(s)),
        unique_keys(dedup_spec(s)),
    decreases s.len(),
{
    if s.len() > 1 {
        assert(sorted_ann(s.drop_last()));
        lemma_dedup_sorted_unique(s.drop_last());
        if !key_eq(s.last(), s[s.len() - 2]) {
            assert(forall|i: int|
                0 <= i < s.drop_last().len() ==> key_le(#[trigger] s.drop_last()[i], s[s.len() - 2]));
            lemma_dedup_ub(s.drop_last(), s[s.len() - 2]);
            let r0 = dedup_spec(s.drop_last());
            let r = r0.push(s.last());
            assert forall|i: int, j: int| 0 <= i < j < r.len() implies key_le(r[i], r[j])
                && !key_eq(r[i], r[j]) by {
                if j == r0.len() {
                    assert(key_le(r0[i], s[s.len() - 2]));
                    assert(key_le(s[s.len() - 2], s.last()));
                }
            }
        }
    }
}

/// Sorting an already time-ordered sequence leaves it unchanged.
pub proof fn lemma_sort_of_sorted(s: Seq<Announcement>)
    requires
        sorted_ann(s),
    ensures
        sort_spec(s) == s,
    decreases s.len(),
{
    if s.len() > 0 {
        assert(sorted_ann(s.drop_last()));
        lemma_sort_of_sorted(s.drop_last());
        if s.len() == 1 {
            assert(sort_spec(s) =~= s);
        } else {
            assert(key_le(s.drop_last().last(), s.last()));
            assert(insert_sorted(s.drop_last(), s.last()) =~= s);
        }
    }
}

/// How the dedup sweep treats one appended element.
proof fn lemma_dedup_push(t: Seq<Announcement>, y: Announcement)
    ensures
        dedup_spec(t.push(y)) == if t.len() == 0 {
            seq![y]
        } else if key_eq(y, t.last()) {
            dedup_spec(t)
        } else {
            dedup_spec(t).push(y)
        },
{
    let s = t.push(y);
    if t.len() == 0 {
        assert(s =~= seq![y]);
    } else {
        assert(s.last() == y);
        assert(s[s.len() - 2] == t.last());
        assert(s.drop_last() =~= t);
    }
}

/// Where the inserted element lands: at the end when it is at or after the
/// last element, else the last element keeps its place.
proof fn lemma_insert_sorted_last(s: Seq<Announcement>, a: Announcement)
    requires
        s.len() > 0,
    ensures
        insert_sorted(s, a).len() == s.len() + 1,
        key_le(s.last(), a) ==> insert_sorted(s, a).last() == a,
        !key_le(s.last(), a) ==> insert_sorted(s, a).last() == s.last(),
{
    lemma_insert_sorted_has_key(s, a, a);
}

/// Inserting an element whose datetime is already present does not change
/// the dedup sweep's outcome on a time-ordered sequence.
proof fn lemma_dedup_insert_dup(s: Seq<Announcement>, x: Announcement)
    requires
        sorted_ann(s),
        has_key(s, x),
    ensures
        dedup_spec(insert_sorted(s, x)) == dedup_spec(s),
    decreases s.len(),
{
    let i = choose|i: int| 0 <= i < s.len() && key_eq(s[i], x);
    if key_le(s.last(), x) {
        assert(key_le(s[i], s.last()));
        assert(key_eq(s.last(), x));
        lemma_dedup_push(s, x);
    } else {
        assert(!key_eq(s.last(), x));
        assert(i < s.len() - 1);
        assert(s.drop_last()[i] == s[i]);
        assert(has_key(s.drop_last(), x));
        assert(s.len() >= 2);
        assert(sorted_ann(s.drop_last()));
        lemma_dedup_insert_dup(s.drop_last(), x);
        let dl = s.drop_last();
        let r0 = insert_sorted(dl, x);
        lemma_insert_sorted_last(dl, x);
        if key_le(dl.last(), x) {
            assert(key_le(s[i], dl.last()) || i == s.len() - 2);
            assert(key_eq(dl.last(), x));
            assert(r0.last() == x);
            assert(key_eq(r0.last(), dl.last()));
        } else {
            assert(r0.last() == dl.last());
        }
        assert(r0.len() > 0);
        lemma_dedup_push(r0, s.last());
        lemma_dedup_push(dl, s.last());
        assert(dl.push(s.last()) =~= s);
        assert(key_eq(s.last(), r0.last()) <==> key_eq(s.last(), dl.last()));
    }
}

/// A time-ordered, datetime-distinct record absorbs any sequence of entries
/// whose datetimes it already holds: sorting the concatenation and sweeping
/// duplicates gives the record back unchanged.
pub proof fn lemma_sort_dedup_absorb(k: Seq<Announcement>, c: Seq<Announcement>)
    requires
        sorted_ann(k),
        unique_keys(k),
        forall|i: int| 0 <= i < c.len() ==> has_key(k, #[trigger] c[i]),
    ensures
        dedup_spec(sort_spec(k + c)) == k,
    decreases c.len(),
{
    if c.len() == 0 {
        assert(k + c =~= k);
        lemma_sort_of_sorted(k);
        assert forall|i: int| 0 < i < k.len() implies !key_eq(#[trigger] k[i], k[i - 1]) by {
            assert(!key_eq(k[i - 1], k[i]));
        }
        lemma_dedup_of_distinct(k);
    } else {
        assert((k + c).drop_last() =~= k + c.drop_last());
        assert((k + c).last() == c.last());
        assert((k + c).len() > 0);
        assert(sort_spec(k + c) == insert_sorted(sort_spec(k + c.drop_last()), c.last()));
        let s0 = sort_spec(k + c.drop_last());
        lemma_sort_sorted(k + c.drop_last());
        assert(has_key(k, c.last()));
        lemma_has_key_concat_left(k, c.drop_last(), c.last());
        lemma_sort_has_key(k + c.drop_last(), c.last());
        lemma_dedup_insert_dup(s0, c.last());
        assert(forall|i: int| 0 <= i < c.drop_last().len() ==> has_key(k, #[trigger] c.drop_last()[i]));
        lemma_sort_dedup_absorb(k, c.drop_last());
    }
}

/// A datetime present in the left part is present in the concatenation.
proof fn lemma_has_key_concat_left(x: Seq<Announcement>, y: Seq<Announcement>, b: Announcement)
    requires
        has_key(x, b),
    ensures
        has_key(x + y, b),
{
    let i = choose|i: int| 0 <= i < x.len() && key_eq(x[i], b);
    assert((x + y)[i] == x[i]);
}

/// The dedup sweep leaves a sequence without adjacent equal datetimes
/// unchanged.
pub proof fn lemma_dedup_of_distinct(s: Seq<Announcement>)
    requires
        forall|i: int| 0 < i < s.len() ==> !key_eq(#[trigger] s[i], s[i - 1]),
    ensures
        dedup_spec(s) == s,
    decreases s.len(),
{
    if s.len() > 1 {
        assert(forall|i: int|
            0 < i < s.drop_last().len() ==> !key_eq(#[trigger] s.drop_last()[i], s.drop_last()[i - 1]));
        lemma_dedup_of_distinct(s.drop_last());
        assert(!key_eq(s.last(), s[s.len() - 2]));
        assert(dedup_spec(s) =~= s);
    }
}

} // verus!
