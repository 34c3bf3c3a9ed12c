use vstd::prelude::*;
use crate::event::FDEvent;
use crate::interval::{Interval, event_of};
use crate::ops::{Failure, MonotonicUpdate, Replace};
use crate::vmap::{vm_clone, vm_drain, vm_entries, vm_get, vm_insert, vm_is_empty, vm_new};

verus! {

/// How the delta buffer changes when event `e` is emitted on variable `loc`:
/// the new entry is the join of `e` with the entry already present, if any.
pub open spec fn delta_join(d: Map<int, FDEvent>, loc: int, e: FDEvent) -> Map<int, FDEvent> {
    if d.dom().contains(loc) {
        d.insert(loc, d[loc].join_spec(e))
    } else {
        d.insert(loc, e)
    }
}

/// Replacing one domain by a well-formed one keeps the store well-formed.
proof fn lemma_wf_after_set(pre: VStore, post: VStore, loc: int, value: Interval)
    requires
        pre.wf(),
        0 <= loc < pre.doms@.len(),
        value.wf(),
        post.doms@ == pre.doms@.update(loc, value),
        post.delta_spec() == pre.delta_spec(),
    ensures
        post.wf(),
{
    assert forall|i: int| 0 <= i < post.doms@.len() implies (#[trigger] post.doms@[i]).wf() by {
        if i != loc {
            assert(pre.doms@[i].wf());
        }
    }
    assert forall|k: int| #[trigger] post.delta_spec().dom().contains(k) implies 0 <= k
        < post.doms@.len() && post.delta_spec()[k].rank() >= FDEvent::Bound.rank() by {
        assert(pre.delta_spec().dom().contains(k));
        assert(post.delta_spec()[k] == pre.delta_spec()[k]);
    }
}

/// Every domain of the sequence has bounds the arithmetic can handle.
pub open spec fn doms_wf(doms: Seq<Interval>) -> bool {
    forall|i: int| 0 <= i < doms.len() ==> (#[trigger] doms[i]).wf()
}

/// No domain of the sequence is empty.
pub open spec fn all_nonempty(doms: Seq<Interval>) -> bool {
    forall|i: int| 0 <= i < doms.len() ==> !(#[trigger] doms[i]).is_empty_spec()
}

/// `d2` is a pointwise monotonic shrink of `d1`.
pub open spec fn shrinks(d1: Seq<Interval>, d2: Seq<Interval>) -> bool {
    d2.len() == d1.len() && forall|i: int|
        0 <= i < d1.len() ==> (#[trigger] d2[i]).subset_spec(d1[i])
}

/// How a store may change under propagation: no variable is added or
/// dropped, every domain shrinks, no pending event is lost, every change is
/// recorded in the delta buffer as the join of the prior entry with the
/// event class of the change, entries of unchanged variables are kept as
/// they are, and no nonempty domain becomes empty.
pub open spec fn evolves(pre: VStore, post: VStore) -> bool {
    &&& post.doms_spec().len() == pre.doms_spec().len()
    &&& forall|i: int|
        0 <= i < pre.doms_spec().len() ==> (#[trigger] post.doms_spec()[i]).subset_spec(
            pre.doms_spec()[i],
        )
    &&& forall|k: int|
        #[trigger] pre.delta_spec().dom().contains(k) ==> post.delta_spec().dom().contains(k)
    &&& forall|i: int|
        0 <= i < pre.doms_spec().len() && #[trigger] post.doms_spec()[i] != pre.doms_spec()[i]
            ==> post.delta_spec().dom().contains(i)
    &&& forall|i: int|
        0 <= i < pre.doms_spec().len() && (#[trigger] post.doms_spec()[i]).is_empty_spec()
            ==> pre.doms_spec()[i].is_empty_spec()
    &&& forall|k: int|
        #[trigger] post.delta_spec().dom().contains(k) ==> pre.delta_spec().dom().contains(k) || (
        0 <= k < pre.doms_spec().len() && post.doms_spec()[k] != pre.doms_spec()[k])
    &&& forall|i: int|
        0 <= i < pre.doms_spec().len() && #[trigger] post.doms_spec()[i] != pre.doms_spec()[i]
            ==> !post.doms_spec()[i].is_empty_spec()
    &&& forall|i: int|
        0 <= i < pre.doms_spec().len() && #[trigger] post.doms_spec()[i] != pre.doms_spec()[i]
            ==> post.delta_spec()[i] == if pre.delta_spec().dom().contains(i) {
            pre.delta_spec()[i].join_spec(event_of(pre.doms_spec()[i], post.doms_spec()[i]))
        } else {
            event_of(pre.doms_spec()[i], post.doms_spec()[i])
        }
    &&& forall|k: int|
        #[trigger] pre.delta_spec().dom().contains(k) && 0 <= k < pre.doms_spec().len()
            && post.doms_spec()[k] == pre.doms_spec()[k] ==> post.delta_spec()[k]
            == pre.delta_spec()[k]
}

pub proof fn lemma_evolves_trans(a: VStore, b: VStore, c: VStore)
    requires
        evolves(a, b),
        evolves(b, c),
    ensures
        evolves(a, c),
{
    assert forall|i: int|
        0 <= i < a.doms_spec().len() implies (#[trigger] c.doms_spec()[i]).subset_spec(
        a.doms_spec()[i],
    ) by {
        assert(c.doms_spec()[i].subset_spec(b.doms_spec()[i]));
        assert(b.doms_spec()[i].subset_spec(a.doms_spec()[i]));
    }
    assert forall|i: int|
        0 <= i < a.doms_spec().len() && #[trigger] c.doms_spec()[i]
            != a.doms_spec()[i] implies c.delta_spec().dom().contains(i) by {
        if b.doms_spec()[i] != a.doms_spec()[i] {
            assert(b.delta_spec().dom().contains(i));
        } else {
            assert(c.doms_spec()[i] != b.doms_spec()[i]);
        }
    }
    assert forall|k: int|
        #[trigger] c.delta_spec().dom().contains(k) implies a.delta_spec().dom().contains(k) || (0
        <= k < a.doms_spec().len() && c.doms_spec()[k] != a.doms_spec()[k]) by {
        if b.delta_spec().dom().contains(k) {
            if !a.delta_spec().dom().contains(k) {
                assert(b.doms_spec()[k] != a.doms_spec()[k]);
                assert(!b.doms_spec()[k].is_empty_spec());
                assert(c.doms_spec()[k].subset_spec(b.doms_spec()[k]));
                assert(b.doms_spec()[k].subset_spec(a.doms_spec()[k]));
                if c.doms_spec()[k] == a.doms_spec()[k] {
                    assert(a.doms_spec()[k].subset_spec(b.doms_spec()[k]));
                    assert(!a.doms_spec()[k].is_empty_spec());
                    assert(b.doms_spec()[k] == a.doms_spec()[k]);
                }
            }
        } else {
            assert(c.doms_spec()[k] != b.doms_spec()[k]);
            if c.doms_spec()[k] == a.doms_spec()[k] {
                assert(!c.doms_spec()[k].is_empty_spec());
                assert(c.doms_spec()[k].subset_spec(b.doms_spec()[k]));
                assert(b.doms_spec()[k].subset_spec(a.doms_spec()[k]));
                assert(b.doms_spec()[k] == a.doms_spec()[k]);
            }
        }
    }
    assert forall|i: int|
        0 <= i < a.doms_spec().len() && #[trigger] c.doms_spec()[i]
            != a.doms_spec()[i] implies !c.doms_spec()[i].is_empty_spec() by {
        if c.doms_spec()[i] != b.doms_spec()[i] {
        } else {
            assert(b.doms_spec()[i] != a.doms_spec()[i]);
        }
    }
    assert forall|i: int|
        0 <= i < a.doms_spec().len() && #[trigger] c.doms_spec()[i]
            != a.doms_spec()[i] implies c.delta_spec()[i] == if a.delta_spec().dom().contains(i) {
        a.delta_spec()[i].join_spec(event_of(a.doms_spec()[i], c.doms_spec()[i]))
    } else {
        event_of(a.doms_spec()[i], c.doms_spec()[i])
    } by {
        let ai = a.doms_spec()[i];
        let bi = b.doms_spec()[i];
        let ci = c.doms_spec()[i];
        if bi == ai {
            assert(ci != bi);
            if a.delta_spec().dom().contains(i) {
                assert(b.delta_spec().dom().contains(i));
                assert(b.delta_spec()[i] == a.delta_spec()[i]);
            } else {
                assert(!b.delta_spec().dom().contains(i));
            }
        } else if ci == bi {
            assert(b.delta_spec().dom().contains(i));
            assert(c.delta_spec()[i] == b.delta_spec()[i]);
        } else {
            assert(bi.subset_spec(ai));
            assert(ci.subset_spec(bi));
            assert(!bi.is_empty_spec());
            assert(!ci.is_empty_spec());
            crate::interval::lemma_event_compose(ai, bi, ci);
            assert(b.delta_spec().dom().contains(i));
            if a.delta_spec().dom().contains(i) {
                crate::event::lemma_join_assoc(
                    a.delta_spec()[i],
                    event_of(ai, bi),
                    event_of(bi, ci),
                );
            }
        }
    }
    assert forall|k: int|
        #[trigger] a.delta_spec().dom().contains(k) && 0 <= k < a.doms_spec().len()
            && c.doms_spec()[k] == a.doms_spec()[k] implies c.delta_spec()[k]
        == a.delta_spec()[k] by {
        if b.doms_spec()[k] != a.doms_spec()[k] {
            assert(!b.doms_spec()[k].is_empty_spec());
            assert(c.doms_spec()[k].subset_spec(b.doms_spec()[k]));
            assert(b.doms_spec()[k].subset_spec(a.doms_spec()[k]));
            assert(b.doms_spec()[k] == a.doms_spec()[k]);
        }
        assert(b.delta_spec()[k] == a.delta_spec()[k]);
        assert(b.delta_spec().dom().contains(k));
        assert(c.delta_spec()[k] == b.delta_spec()[k]);
    }
}

/// The variable store: one interval domain per variable id, plus the delta
/// buffer of events accumulated since the last drain.
pub struct VStore {
    pub doms: Vec<Interval>,
    pub delta: vec_map::VecMap<FDEvent>,
}

impl VStore {
    /// The domains, indexed by variable id.
    pub open spec fn doms_spec(&self) -> Seq<Interval> {
        self.doms@
    }

    /// The coalesced (variable, event) buffer.
    pub open spec fn delta_spec(&self) -> Map<int, FDEvent> {
        vm_entries(self.delta)
    }

    pub open spec fn wf(&self) -> bool {
        &&& forall|i: int| 0 <= i < self.doms@.len() ==> (#[trigger] self.doms@[i]).wf()
        &&& forall|k: int|
            #[trigger] self.delta_spec().dom().contains(k) ==> 0 <= k < self.doms@.len()
                && self.delta_spec()[k].rank() >= FDEvent::Bound.rank()
    }

    pub fn empty() -> (r: VStore)
        ensures
            r.wf(),
            r.doms_spec().len() == 0,
            r.delta_spec() == Map::<int, FDEvent>::empty(),
    {
        VStore { doms: Vec::new(), delta: vm_new() }
    }

    pub fn len(&self) -> (r: usize)
        ensures
            r == self.doms_spec().len(),
    {
        self.doms.len()
    }

    /// Append a new variable with the given domain; its id is returned.
    pub fn allocate(&mut self, dom: Interval) -> (idx: usize)
        requires
            old(self).wf(),
            dom.wf(),
        ensures
            final(self).wf(),
            idx == old(self).doms_spec().len(),
            final(self).doms_spec() == old(self).doms_spec().push(dom),
            final(self).delta_spec() == old(self).delta_spec(),
    {
        let idx = self.doms.len();
        self.doms.push(dom);
        proof {
            assert forall|i: int| 0 <= i < self.doms@.len() implies (
            #[trigger] self.doms@[i]).wf() by {
                if i < old(self).doms@.len() {
                    assert(old(self).doms@[i].wf());
                } else {
                    assert(self.doms@[i] == dom);
                }
            }
            assert forall|k: int| #[trigger] self.delta_spec().dom().contains(k) implies 0 <= k
                < self.doms@.len() && self.delta_spec()[k].rank() >= FDEvent::Bound.rank() by {
                assert(old(self).delta_spec().dom().contains(k));
                assert(old(self).delta_spec()[k] == self.delta_spec()[k]);
            }
        }
        idx
    }

    /// A copy of the domain of variable `idx`.
    pub fn read(&self, idx: usize) -> (r: Interval)
        requires
            idx < self.doms_spec().len(),
        ensures
            r == self.doms_spec()[idx as int],
    {
        self.doms[idx]
    }

    /// True iff the delta buffer holds at least one event.
    pub fn has_changed(&self) -> (r: bool)
        ensures
            r == (self.delta_spec().dom() != Set::<int>::empty()),
    {
        !vm_is_empty(&self.delta)
    }

    /// Empty the delta buffer and return its entries in ascending id order.
    pub fn drain_delta(&mut self) -> (r: Vec<(usize, FDEvent)>)
        requires
            old(self).wf(),
        ensures
            final(self).wf(),
            final(self).doms_spec() == old(self).doms_spec(),
            final(self).delta_spec().dom() =~= Set::<int>::empty(),
            forall|i: int|
                0 <= i < r@.len() ==> old(self).delta_spec().dom().contains(
                    (#[trigger] r@[i]).0 as int,
                ) && r@[i].1 == old(self).delta_spec()[r@[i].0 as int],
            forall|k: int|
                old(self).delta_spec().dom().contains(k) ==> exists|i: int|
                    0 <= i < r@.len() && (#[trigger] r@[i]).0 as int == k,
            forall|i: int, j: int| 0 <= i < j < r@.len() ==> r@[i].0 < r@[j].0,
    {
        vm_drain(&mut self.delta)
    }

    /// Duplicate the store, domains and pending delta alike.
    pub fn duplicate(&self) -> (r: VStore)
        ensures
            r.doms_spec() == self.doms_spec(),
            r.delta_spec() == self.delta_spec(),
    {
        let mut doms: Vec<Interval> = Vec::new();
        let n = self.doms.len();
        let mut i: usize = 0;
        while i < n
            invariant
                n == self.doms@.len(),
                i <= n,
                doms@ =~= self.doms@.subrange(0, i as int),
            decreases n - i,
        {
            doms.push(self.doms[i]);
            i += 1;
        }
        proof {
            assert(doms@ =~= self.doms@);
        }
        VStore { doms, delta: vm_clone(&self.delta) }
    }
}

impl Failure for VStore {
    /// The store is failed when some variable's domain is empty.
    open spec fn failed_spec(&self) -> bool {
        exists|i: int| 0 <= i < self.doms@.len() && (#[trigger] self.doms@[i]).is_empty_spec()
    }

    fn is_failed(&self) -> (r: bool) {
        let n = self.doms.len();
        let mut i: usize = 0;
        while i < n
            invariant
                n == self.doms@.len(),
                i <= n,
                forall|j: int| 0 <= j < i ==> !(#[trigger] self.doms@[j]).is_empty_spec(),
            decreases n - i,
        {
            if self.doms[i].is_empty() {
                return true;
            }
            i += 1;
        }
        false
    }
}

impl MonotonicUpdate<usize, Interval> for VStore {
    /// The new domain must be included in the current one.
    open spec fn update_requires(&self, loc: usize, value: Interval) -> bool {
        self.wf() && loc < self.doms@.len() && value.subset_spec(self.doms@[loc as int])
    }

    /// An empty domain is refused and nothing changes; otherwise the domain
    /// shrinks to `value` and, on a strict change, the event class of the
    /// change is joined into the delta buffer.
    open spec fn update_ensures(
        &self,
        post: &Self,
        loc: usize,
        value: Interval,
        r: bool,
    ) -> bool {
        &&& post.wf()
        &&& r == !value.is_empty_spec()
        &&& !r ==> post.doms_spec() == self.doms_spec() && post.delta_spec() == self.delta_spec()
        &&& r ==> {
            &&& post.doms_spec() == self.doms_spec().update(loc as int, value)
            &&& value == self.doms_spec()[loc as int] ==> post.delta_spec() == self.delta_spec()
            &&& value != self.doms_spec()[loc as int] ==> post.delta_spec() == delta_join(
                self.delta_spec(),
                loc as int,
                event_of(self.doms_spec()[loc as int], value),
            )
        }
    }

    fn update(&mut self, loc: usize, value: Interval) -> (r: bool) {
        if value.is_empty() {
            return false;
        }
        let ghost pre = *self;
        let current = self.doms[loc];
        proof {
            assert(current.wf());
            assert(value.wf());
        }
        if value.lower() == current.lower() && value.upper() == current.upper() {
            proof {
                assert(value == current);
            }
            self.doms.set(loc, value);
            proof {
                lemma_wf_after_set(pre, *self, loc as int, value);
            }
            return true;
        }
        let e = if value.is_singleton() {
            FDEvent::Assignment
        } else {
            FDEvent::Bound
        };
        proof {
            assert(e == event_of(current, value));
        }
        let joined = match vm_get(&self.delta, loc) {
            Some(prev) => prev.join(e),
            None => e,
        };
        self.doms.set(loc, value);
        vm_insert(&mut self.delta, loc, joined);
        proof {
            assert(self.delta_spec() =~= delta_join(
                pre.delta_spec(),
                loc as int,
                event_of(current, value),
            ));
            assert forall|i: int| 0 <= i < self.doms@.len() implies (
            #[trigger] self.doms@[i]).wf() by {
                if i != loc as int {
                    assert(pre.doms@[i].wf());
                }
            }
            assert forall|k: int| #[trigger] self.delta_spec().dom().contains(k) implies 0 <= k
                < self.doms@.len() && self.delta_spec()[k].rank() >= FDEvent::Bound.rank() by {
                if k != loc as int {
                    assert(pre.delta_spec().dom().contains(k));
                    assert(pre.delta_spec()[k] == self.delta_spec()[k]);
                } else {
                    assert(self.delta_spec()[k] == joined);
                    assert(joined.rank() >= e.rank());
                }
            }
        }
        true
    }
}

impl Replace<usize, Interval> for VStore {
    open spec fn replace_requires(&self, loc: usize, value: Interval) -> bool {
        self.wf() && loc < self.doms@.len() && value.wf()
    }

    /// Swap the domain at `loc` for `value`, returning the previous one.
    open spec fn replace_ensures(
        &self,
        post: &Self,
        loc: usize,
        value: Interval,
        r: Interval,
    ) -> bool {
        &&& post.wf()
        &&& r == self.doms_spec()[loc as int]
        &&& post.doms_spec() == self.doms_spec().update(loc as int, value)
        &&& post.delta_spec() == self.delta_spec()
    }

    fn replace(&mut self, loc: usize, value: Interval) -> (r: Interval) {
        let ghost pre = *self;
        let prev = self.doms[loc];
        self.doms.set(loc, value);
        proof {
            lemma_wf_after_set(pre, *self, loc as int, value);
        }
        prev
    }
}

} // verus!
