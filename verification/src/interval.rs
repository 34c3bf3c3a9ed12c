use vstd::prelude::*;
use crate::event::FDEvent;

verus! {

/// Largest magnitude a domain bound (or a term offset) may have.  Keeping
/// bounds within `±2^61` leaves room so that sums of two bounds, shifts by a
/// term offset and cardinalities never overflow `i64`/`u64` arithmetic.
pub const LIMIT: i64 = 2305843009213693952;

/// Largest magnitude a bound of a shifted (term-level) interval may reach:
/// a well-formed domain bound plus a well-formed offset.
pub const WIDE_LIMIT: i64 = 4611686018427387904;

/// Closed integer interval `[lo, hi]`; empty iff `lo > hi`.
#[derive(Clone, Copy, PartialEq, Eq, Structural, Debug)]
pub struct Interval {
    pub lo: i64,
    pub hi: i64,
}

impl Interval {
    /// Bounds are small enough for the library's arithmetic.
    pub open spec fn wf(self) -> bool {
        -LIMIT <= self.lo <= LIMIT && -LIMIT <= self.hi <= LIMIT
    }

    /// Bounds reachable by shifting a well-formed interval by a well-formed
    /// offset; still small enough for `±1` arithmetic.
    pub open spec fn wide(self) -> bool {
        -WIDE_LIMIT <= self.lo <= WIDE_LIMIT && -WIDE_LIMIT <= self.hi <= WIDE_LIMIT
    }

    pub open spec fn is_empty_spec(self) -> bool {
        self.lo > self.hi
    }

    pub open spec fn is_singleton_spec(self) -> bool {
        self.lo == self.hi
    }

    pub open spec fn contains_spec(self, v: int) -> bool {
        self.lo <= v <= self.hi
    }

    /// Set inclusion of `self` in `other`.
    pub open spec fn subset_spec(self, other: Interval) -> bool {
        self.is_empty_spec() || (other.lo <= self.lo && self.hi <= other.hi)
    }

    /// Number of values in the interval.
    pub open spec fn card_spec(self) -> int {
        if self.is_empty_spec() {
            0
        } else {
            self.hi - self.lo + 1
        }
    }

    pub open spec fn disjoint_spec(self, other: Interval) -> bool {
        self.is_empty_spec() || other.is_empty_spec() || self.hi < other.lo || other.hi < self.lo
    }

    pub fn new(lo: i64, hi: i64) -> (r: Interval)
        ensures
            r.lo == lo,
            r.hi == hi,
    {
        Interval { lo, hi }
    }

    pub fn lower(&self) -> (r: i64)
        ensures
            r == self.lo,
    {
        self.lo
    }

    pub fn upper(&self) -> (r: i64)
        ensures
            r == self.hi,
    {
        self.hi
    }

    pub fn is_empty(&self) -> (r: bool)
        ensures
            r == self.is_empty_spec(),
    {
        self.lo > self.hi
    }

    pub fn is_singleton(&self) -> (r: bool)
        ensures
            r == self.is_singleton_spec(),
    {
        self.lo == self.hi
    }

    pub fn contains(&self, v: i64) -> (r: bool)
        ensures
            r == self.contains_spec(v as int),
    {
        self.lo <= v && v <= self.hi
    }

    pub fn is_subset(&self, other: &Interval) -> (r: bool)
        ensures
            r == self.subset_spec(*other),
    {
        self.lo > self.hi || (other.lo <= self.lo && self.hi <= other.hi)
    }

    pub fn is_disjoint(&self, other: &Interval) -> (r: bool)
        ensures
            r == self.disjoint_spec(*other),
    {
        self.lo > self.hi || other.lo > other.hi || self.hi < other.lo || other.hi < self.lo
    }

    /// Number of values in the interval.
    pub fn size(&self) -> (r: u64)
        requires
            self.wf(),
        ensures
            r == self.card_spec(),
    {
        if self.lo > self.hi {
            0
        } else {
            (self.hi - self.lo) as u64 + 1
        }
    }

    /// Intersection `self ∩ other`; may be empty.
    pub fn intersect(&self, other: &Interval) -> (r: Interval)
        ensures
            r.lo == if self.lo >= other.lo { self.lo } else { other.lo },
            r.hi == if self.hi <= other.hi { self.hi } else { other.hi },
            forall|v: int| r.contains_spec(v) <==> self.contains_spec(v) && other.contains_spec(v),
    {
        Interval {
            lo: if self.lo >= other.lo { self.lo } else { other.lo },
            hi: if self.hi <= other.hi { self.hi } else { other.hi },
        }
    }

    /// Keep only the values `<= c`.
    pub fn intersect_leq(&self, c: i64) -> (r: Interval)
        ensures
            r.lo == self.lo,
            r.hi == if self.hi <= c { self.hi } else { c },
            forall|v: int| r.contains_spec(v) <==> self.contains_spec(v) && v <= c,
    {
        Interval { lo: self.lo, hi: if self.hi <= c { self.hi } else { c } }
    }

    /// Keep only the values `>= c`.
    pub fn intersect_geq(&self, c: i64) -> (r: Interval)
        ensures
            r.hi == self.hi,
            r.lo == if self.lo >= c { self.lo } else { c },
            forall|v: int| r.contains_spec(v) <==> self.contains_spec(v) && v >= c,
    {
        Interval { lo: if self.lo >= c { self.lo } else { c }, hi: self.hi }
    }

    /// What removing `c` yields: bounds weaken only when `c` is a bound,
    /// removing an interior value is a no-op.
    pub open spec fn remove_spec(self, c: int) -> Interval {
        if self.is_empty_spec() {
            self
        } else if self.lo == c && self.hi == c {
            Interval { lo: 1, hi: 0 }
        } else if self.lo == c {
            Interval { lo: (c + 1) as i64, hi: self.hi }
        } else if self.hi == c {
            Interval { lo: self.lo, hi: (c - 1) as i64 }
        } else {
            self
        }
    }

    /// Remove value `c`, weakening bounds only (interior removal is a no-op).
    pub fn remove(&self, c: i64) -> (r: Interval)
        requires
            self.wide(),
        ensures
            r == self.remove_spec(c as int),
            r.subset_spec(*self),
    {
        if self.lo > self.hi {
            *self
        } else if self.lo == c && self.hi == c {
            Interval { lo: 1, hi: 0 }
        } else if self.lo == c {
            Interval { lo: c + 1, hi: self.hi }
        } else if self.hi == c {
            Interval { lo: self.lo, hi: c - 1 }
        } else {
            *self
        }
    }

    /// Translate the interval by `k`.
    pub fn shift(&self, k: i64) -> (r: Interval)
        requires
            self.wf(),
            -LIMIT <= k <= LIMIT,
        ensures
            r.lo == self.lo + k,
            r.hi == self.hi + k,
    {
        Interval { lo: self.lo + k, hi: self.hi + k }
    }
}

/// Event class of a monotonic change from `old` to `new`: `Assignment` iff
/// the new domain is a singleton, else `Bound` iff an endpoint moved, else
/// `Inner`.
pub open spec fn event_of(old: Interval, new: Interval) -> FDEvent {
    if new.is_singleton_spec() {
        FDEvent::Assignment
    } else if new.lo != old.lo || new.hi != old.hi {
        FDEvent::Bound
    } else {
        FDEvent::Inner
    }
}

/// The event class of two monotonic changes in a row is the join of the
/// two classes.
pub proof fn lemma_event_compose(a: Interval, b: Interval, c: Interval)
    requires
        b.subset_spec(a),
        c.subset_spec(b),
        b != a,
        c != b,
        !b.is_empty_spec(),
        !c.is_empty_spec(),
    ensures
        event_of(a, c) == event_of(a, b).join_spec(event_of(b, c)),
{
    assert(!b.is_singleton_spec());
    assert(b.lo != a.lo || b.hi != a.hi);
    assert(c.lo != a.lo || c.hi != a.hi);
}

/// Set inclusion between intervals is transitive, so under any sequence of
/// monotonic updates a domain only ever shrinks.
pub proof fn lemma_subset_trans(a: Interval, b: Interval, c: Interval)
    requires
        a.subset_spec(b),
        b.subset_spec(c),
    ensures
        a.subset_spec(c),
{
}

} // verus!
