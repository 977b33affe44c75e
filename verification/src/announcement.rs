//! The announcement record and its datetime identity key.
//!
//! An announcement's identity is its `datetime` alone: `content` and `link`
//! never take part in identity, ordering or deduplication. The source feed's
//! timestamp granularity is assumed unique per announcement.

use vstd::prelude::*;

verus! {

/// A timezone-aware point in time: seconds and subsecond nanoseconds since
/// the Unix epoch (the instant, in UTC), plus the local offset from UTC in
/// seconds. Two timestamps denote the same instant exactly when `secs` and
/// `nanos` agree; the offset is kept only for display.
#[derive(Clone, Copy, Debug, PartialEq, Eq)]
pub struct Timestamp {
    pub secs: i64,
    pub nanos: u32,
    pub offset_secs: i32,
}

impl Timestamp {
    /// Bounds every constructed timestamp satisfies: nanoseconds stay below
    /// two seconds' worth (a leap second folds into the extra second), and
    /// the offset is strictly within one day of UTC.
    pub open spec fn wf(self) -> bool {
        self.nanos < 2_000_000_000 && -86_400 < self.offset_secs && self.offset_secs < 86_400
    }

    /// The documented default for a record whose source had no timestamp:
    /// the Unix epoch, at UTC.
    pub fn epoch() -> (r: Timestamp)
        ensures
            r == (Timestamp { secs: 0, nanos: 0, offset_secs: 0 }),
            r.wf(),
    {
        Timestamp { secs: 0, nanos: 0, offset_secs: 0 }
    }
}

/// One timestamped transit-disruption notice.
#[derive(Clone, Debug, PartialEq, Eq)]
pub struct Announcement {
    /// Normalized human-readable body text.
    pub content: String,
    /// URL reference to full details; empty when the source item had none.
    pub link: String,
    /// The authoritative identity key.
    pub datetime: Timestamp,
}

/// Identity: two announcements are the same exactly when they denote the
/// same instant, whatever their content or link.
pub open spec fn key_eq(a: Announcement, b: Announcement) -> bool {
    a.datetime.secs == b.datetime.secs && a.datetime.nanos == b.datetime.nanos
}

/// Ordering by instant: `a` is at or before `b`.
pub open spec fn key_le(a: Announcement, b: Announcement) -> bool {
    a.datetime.secs < b.datetime.secs
        || (a.datetime.secs == b.datetime.secs && a.datetime.nanos <= b.datetime.nanos)
}

/// Non-decreasing by datetime.
pub open spec fn sorted_ann(s: Seq<Announcement>) -> bool {
    forall|i: int, j: int| 0 <= i < j < s.len() ==> key_le(s[i], s[j])
}

/// No two entries share a datetime.
pub open spec fn unique_keys(s: Seq<Announcement>) -> bool {
    forall|i: int, j: int| 0 <= i < j < s.len() ==> !key_eq(s[i], s[j])
}

/// The canonical shape of a persisted collection: time-sorted and
/// deduplicated by datetime.
pub open spec fn normalized(s: Seq<Announcement>) -> bool {
    sorted_ann(s) && unique_keys(s)
}

/// Some entry of `s` has the same datetime as `a`.
pub open spec fn has_key(s: Seq<Announcement>, a: Announcement) -> bool {
    exists|i: int| 0 <= i < s.len() && key_eq(s[i], a)
}

impl Announcement {
    /// Datetime-only identity check, the one equality the library uses.
    pub fn same_identity(&self, other: &Announcement) -> (r: bool)
        ensures
            r == key_eq(*self, *other),
    {
        self.datetime.secs == other.datetime.secs && self.datetime.nanos == other.datetime.nanos
    }

    /// `self` is at or before `other`.
    pub fn at_or_before(&self, other: &Announcement) -> (r: bool)
        ensures
            r == key_le(*self, *other),
    {
        self.datetime.secs < other.datetime.secs
            || (self.datetime.secs == other.datetime.secs
                && self.datetime.nanos <= other.datetime.nanos)
    }

    /// An exact copy of the record.
    pub fn duplicate(&self) -> (r: Announcement)
        ensures
            r == *self,
    {
        Announcement {
            content: self.content.clone(),
            link: self.link.clone(),
            datetime: self.datetime,
        }
    }
}

/// A datetime occurs in a concatenation exactly when it occurs in one of the
/// parts.
pub proof fn lemma_has_key_concat(x: Seq<Announcement>, y: Seq<Announcement>, b: Announcement)
    ensures
        has_key(x + y, b) <==> (has_key(x, b) || has_key(y, b)),
{
    if has_key(x, b) {
        let i = choose|i: int| 0 <= i < x.len() && key_eq(x[i], b);
        assert((x + y)[i] == x[i]);
        assert(has_key(x + y, b));
    }
    if has_key(y, b) {
        let i = choose|i: int| 0 <= i < y.len() && key_eq(y[i], b);
        assert((x + y)[x.len() + i] == y[i]);
        assert(has_key(x + y, b));
    }
    if has_key(x + y, b) {
        let i = choose|i: int| 0 <= i < (x + y).len() && key_eq((x + y)[i], b);
        if i < x.len() {
            assert((x + y)[i] == x[i]);
        } else {
            assert((x + y)[i] == y[i - x.len()]);
        }
    }
}

/// Identity law: announcements are equal exactly when their datetimes are,
/// regardless of any difference in content or link.
pub proof fn lemma_identity_by_datetime_only(a: Announcement, b: Announcement)
    ensures
        key_eq(a, b) <==> (a.datetime.secs == b.datetime.secs
            && a.datetime.nanos == b.datetime.nanos),
        forall|c1: String, l1: String, c2: String, l2: String|
            key_eq(
                Announcement { content: c1, link: l1, datetime: a.datetime },
                Announcement { content: c2, link: l2, datetime: b.datetime },
            ) == key_eq(a, b),
{
}

} // verus!
