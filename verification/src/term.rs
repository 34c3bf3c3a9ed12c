use vstd::prelude::*;
use crate::event::FDEvent;
use crate::interval::{Interval, LIMIT};
use crate::ops::MonotonicUpdate;
use crate::vstore::{VStore, evolves};

verus! {

/// A read/write view over the variable store: either a variable shifted by a
/// constant offset (identity when the offset is zero), or a plain constant.
#[derive(Clone, Copy, PartialEq, Eq, Structural, Debug)]
pub enum Term {
    Var { id: usize, offset: i64 },
    Constant { value: i64 },
}

impl Term {
    pub open spec fn wf(self) -> bool {
        match self {
            Term::Var { id, offset } => -LIMIT <= offset <= LIMIT,
            Term::Constant { value } => -LIMIT <= value <= LIMIT,
        }
    }

    /// The variable ids the term depends on.
    pub open spec fn deps_spec(self) -> Set<int> {
        match self {
            Term::Var { id, offset } => Set::empty().insert(id as int),
            Term::Constant { value } => Set::empty(),
        }
    }

    /// All dependencies lie below `n`.
    pub open spec fn bound_spec(self, n: int) -> bool {
        forall|v: int| self.deps_spec().contains(v) ==> 0 <= v < n
    }

    /// Value of the term under a full assignment of the variables.
    pub open spec fn val_spec(self, asn: Seq<int>) -> int {
        match self {
            Term::Var { id, offset } => asn[id as int] + offset,
            Term::Constant { value } => value as int,
        }
    }

    /// The domain the term reads from the store.
    pub open spec fn read_spec(self, doms: Seq<Interval>) -> Interval {
        match self {
            Term::Var { id, offset } => Interval {
                lo: (doms[id as int].lo + offset) as i64,
                hi: (doms[id as int].hi + offset) as i64,
            },
            Term::Constant { value } => Interval { lo: value, hi: value },
        }
    }

    /// The domains after writing `d` through the term (a constant writes
    /// nothing; a variable term shifts `d` back and stores it).
    pub open spec fn write_spec(self, doms: Seq<Interval>, d: Interval) -> Seq<Interval> {
        match self {
            Term::Var { id, offset } => doms.update(
                id as int,
                Interval { lo: (d.lo - offset) as i64, hi: (d.hi - offset) as i64 },
            ),
            Term::Constant { value } => doms,
        }
    }

    /// A variable read directly.
    pub fn identity(id: usize) -> (r: Term)
        ensures
            r == (Term::Var { id, offset: 0i64 }),
            r.wf(),
    {
        Term::Var { id, offset: 0 }
    }

    /// A constant term.
    pub fn constant(value: i64) -> (r: Term)
        requires
            -LIMIT <= value <= LIMIT,
        ensures
            r == (Term::Constant { value }),
            r.wf(),
    {
        Term::Constant { value }
    }

    /// The term shifted by `k`: reads as `self + k`.
    pub fn addition(self, k: i64) -> (r: Term)
        requires
            self.wf(),
            -LIMIT <= k <= LIMIT,
            match self {
                Term::Var { id, offset } => -LIMIT <= offset + k <= LIMIT,
                Term::Constant { value } => -LIMIT <= value + k <= LIMIT,
            },
        ensures
            r.wf(),
            r.deps_spec() == self.deps_spec(),
            forall|asn: Seq<int>| r.val_spec(asn) == self.val_spec(asn) + k,
    {
        match self {
            Term::Var { id, offset } => Term::Var { id, offset: offset + k },
            Term::Constant { value } => Term::Constant { value: value + k },
        }
    }

    /// Read the term's current domain from the store.
    pub fn read(&self, store: &VStore) -> (r: Interval)
        requires
            store.wf(),
            self.wf(),
            self.bound_spec(store.doms_spec().len() as int),
        ensures
            r == self.read_spec(store.doms_spec()),
            r.wide(),
    {
        match self {
            Term::Var { id, offset } => {
                proof {
                    assert(self.deps_spec().contains(*id as int));
                }
                let d = store.read(*id);
                proof {
                    assert(store.doms_spec()[*id as int].wf());
                }
                d.shift(*offset)
            },
            Term::Constant { value } => Interval { lo: *value, hi: *value },
        }
    }

    /// Write domain `d` through the term; `d` must be included in what the
    /// term currently reads.  Returns false (leaving the store unchanged)
    /// exactly when `d` is empty.
    pub fn update(&self, store: &mut VStore, d: Interval) -> (r: bool)
        requires
            old(store).wf(),
            self.wf(),
            self.bound_spec(old(store).doms_spec().len() as int),
            d.subset_spec(self.read_spec(old(store).doms_spec())),
        ensures
            final(store).wf(),
            final(store).doms_spec().len() == old(store).doms_spec().len(),
            evolves(*old(store), *final(store)),
            r == !d.is_empty_spec(),
            r ==> final(store).doms_spec() == self.write_spec(old(store).doms_spec(), d),
            !r ==> *final(store) == *old(store),
    {
        match self {
            Term::Var { id, offset } => {
                if d.is_empty() {
                    return false;
                }
                proof {
                    assert(self.deps_spec().contains(*id as int));
                    assert(old(store).doms_spec()[*id as int].wf());
                }
                let shifted = Interval { lo: d.lo - *offset, hi: d.hi - *offset };
                proof {
                    assert(!shifted.is_empty_spec());
                    assert(shifted.subset_spec(old(store).doms_spec()[*id as int]));
                }
                let ok = store.update(*id, shifted);
                proof {
                    assert(ok);
                    assert(final(store).doms_spec() == self.write_spec(
                        old(store).doms_spec(),
                        d,
                    ));
                }
                ok
            },
            Term::Constant { value } => {
                if d.is_empty() {
                    false
                } else {
                    true
                }
            },
        }
    }

    /// The variables whose events at `ev` can change what the term reads.
    pub fn dependencies(&self, ev: FDEvent) -> (r: Vec<(usize, FDEvent)>)
        ensures
            forall|i: int|
                0 <= i < r@.len() ==> self.deps_spec().contains((#[trigger] r@[i]).0 as int)
                    && r@[i].1 == ev,
            forall|v: int|
                self.deps_spec().contains(v) ==> exists|i: int|
                    0 <= i < r@.len() && (#[trigger] r@[i]).0 as int == v,
    {
        match self {
            Term::Var { id, offset } => {
                let mut r: Vec<(usize, FDEvent)> = Vec::new();
                r.push((*id, ev));
                proof {
                    assert forall|v: int| self.deps_spec().contains(v) implies exists|i: int|
                        0 <= i < r@.len() && (#[trigger] r@[i]).0 as int == v by {
                        assert(v == *id as int);
                        assert(r@[0].0 as int == v);
                    }
                }
                r
            },
            Term::Constant { value } => Vec::new(),
        }
    }
}

/// Under a full assignment that picks a value inside every domain, a term's
/// value lies inside what the term reads.
pub proof fn lemma_val_in_read(t: Term, doms: Seq<Interval>, asn: Seq<int>)
    requires
        t.wf(),
        t.bound_spec(doms.len() as int),
        crate::vstore::doms_wf(doms),
        asn.len() == doms.len(),
        forall|i: int| 0 <= i < doms.len() ==> (#[trigger] doms[i]).contains_spec(asn[i]),
    ensures
        t.read_spec(doms).contains_spec(t.val_spec(asn)),
{
    match t {
        Term::Var { id, offset } => {
            assert(t.deps_spec().contains(id as int));
            assert(doms[id as int].wf());
            assert(doms[id as int].contains_spec(asn[id as int]));
        },
        Term::Constant { value } => {},
    }
}

/// Shrinking the store tightens what a term reads, and a term read from a
/// store of nonempty domains is nonempty.
pub proof fn lemma_read_shrink(t: Term, d1: Seq<Interval>, d2: Seq<Interval>)
    requires
        t.wf(),
        t.bound_spec(d1.len() as int),
        crate::vstore::doms_wf(d1),
        crate::vstore::doms_wf(d2),
        crate::vstore::shrinks(d1, d2),
        crate::vstore::all_nonempty(d2),
    ensures
        t.read_spec(d2).lo >= t.read_spec(d1).lo,
        t.read_spec(d2).hi <= t.read_spec(d1).hi,
        !t.read_spec(d2).is_empty_spec(),
{
    match t {
        Term::Var { id, offset } => {
            assert(t.deps_spec().contains(id as int));
            assert(d1[id as int].wf());
            assert(d2[id as int].wf());
            assert(d2[id as int].subset_spec(d1[id as int]));
            assert(!d2[id as int].is_empty_spec());
        },
        Term::Constant { value } => {},
    }
}

} // verus!
