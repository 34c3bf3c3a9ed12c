use vstd::prelude::*;
use crate::cstore::{CStore, pending, stable_or_scheduled};
use crate::interval::Interval;
use crate::ops::Failure;
use crate::props::{Prop, lemma_subsumed_true_sem, prop_stable, satisfies_all, within};
use crate::trilean::Trilean;
use crate::util::copy_vec;
use crate::vstore::{VStore, all_nonempty, doms_wf, shrinks};

verus! {

/// `asn` is admitted by the node: inside its domains and satisfying its
/// constraints.
pub open spec fn node_admits(s: Space, asn: Seq<int>) -> bool {
    within(asn, s.vstore.doms_spec()) && satisfies_all(asn, s.cstore.props@)
}

/// `asn` is admitted by the branch: admitted by its parent snapshot and
/// satisfying the constraint the branch adds.
pub open spec fn branch_admits(b: Branch, asn: Seq<int>) -> bool {
    node_admits(b.parent.space, asn) && b.op.sem(asn)
}

/// A space: the variable store and the constraint store of one search node.
pub struct Space {
    pub vstore: VStore,
    pub cstore: CStore,
}

/// An immutable snapshot of a space, from which fresh children are made.
pub struct FrozenSpace {
    pub space: Space,
}

impl CStore {
    /// An exact copy, for snapshotting.
    pub fn duplicate(&self) -> (r: CStore)
        ensures
            r.props@ == self.props@,
            r.active@ == self.active@,
            r.reactor@ == self.reactor@,
            r.queue@ == self.queue@,
            r.queued@ == self.queued@,
    {
        let mut props: Vec<Prop> = Vec::new();
        let n = self.props.len();
        let mut i: usize = 0;
        while i < n
            invariant
                n == self.props@.len(),
                i <= n,
                props@ =~= self.props@.subrange(0, i as int),
            decreases n - i,
        {
            let p = self.props[i].duplicate();
            props.push(p);
            proof {
                assert(props@ =~= self.props@.subrange(0, i as int + 1));
            }
            i += 1;
        }
        proof {
            assert(props@ =~= self.props@);
        }
        CStore {
            props,
            active: copy_vec(&self.active),
            reactor: copy_vec(&self.reactor),
            queue: copy_vec(&self.queue),
            queued: copy_vec(&self.queued),
        }
    }
}

impl Space {
    pub open spec fn wf(&self) -> bool {
        &&& self.vstore.wf()
        &&& self.cstore.wf()
        &&& self.cstore.bound_spec(self.vstore.doms_spec().len() as int)
        &&& self.cstore.retired_entailed(self.vstore.doms_spec())
        &&& stable_or_scheduled(self.cstore, self.vstore)
    }

    pub fn empty() -> (r: Space)
        ensures
            r.wf(),
            r.vstore.doms_spec().len() == 0,
            r.cstore.props@.len() == 0,
    {
        Space { vstore: VStore::empty(), cstore: CStore::empty() }
    }

    /// Run propagation to a fixed point.  `True` means every constraint is
    /// entailed: any assignment within the final domains satisfies them
    /// all.  `False` means the space is inconsistent: no assignment within
    /// the entry domains satisfies every constraint.  `Unknown` means a
    /// genuine fixed point: the delta buffer is empty, another run of any
    /// live propagator changes nothing, and some constraint is still
    /// undecided.  Except on `False`, no assignment that satisfies all
    /// constraints is ever lost from the domains.
    pub fn consistency(&mut self) -> (r: Trilean)
        requires
            old(self).wf(),
        ensures
            r != Trilean::False ==> final(self).wf(),
            final(self).cstore.props@ == old(self).cstore.props@,
            final(self).vstore.doms_spec().len() == old(self).vstore.doms_spec().len(),
            shrinks(old(self).vstore.doms_spec(), final(self).vstore.doms_spec()),
            r == Trilean::True ==> all_nonempty(final(self).vstore.doms_spec()),
            r == Trilean::True ==> forall|asn: Seq<int>|
                within(asn, final(self).vstore.doms_spec()) ==> satisfies_all(
                    asn,
                    final(self).cstore.props@,
                ),
            r == Trilean::Unknown ==> all_nonempty(final(self).vstore.doms_spec()),
            r == Trilean::Unknown ==> final(self).vstore.delta_spec().dom() =~= Set::<
                int,
            >::empty(),
            r == Trilean::Unknown ==> forall|k: int|
                0 <= k < final(self).cstore.props@.len() && (
                #[trigger] final(self).cstore.active@[k]) ==> prop_stable(
                    final(self).cstore.props@[k],
                    final(self).vstore.doms_spec(),
                ) && final(self).cstore.props@[k].subsumed_spec(final(self).vstore.doms_spec())
                    == Trilean::Unknown,
            r == Trilean::Unknown ==> exists|k: int|
                0 <= k < final(self).cstore.props@.len() && (
                #[trigger] final(self).cstore.props@[k]).subsumed_spec(
                    final(self).vstore.doms_spec(),
                ) != Trilean::True,
            r == Trilean::False ==> forall|asn: Seq<int>|
                #[trigger] within(asn, old(self).vstore.doms_spec()) ==> !satisfies_all(
                    asn,
                    old(self).cstore.props@,
                ),
            r != Trilean::False ==> forall|asn: Seq<int>|
                #[trigger] within(asn, old(self).vstore.doms_spec()) && satisfies_all(
                    asn,
                    old(self).cstore.props@,
                ) ==> within(asn, final(self).vstore.doms_spec()),
    {
        if self.vstore.is_failed() {
            proof {
                let i = choose|i: int|
                    0 <= i < self.vstore.doms_spec().len() && (
                    #[trigger] self.vstore.doms_spec()[i]).is_empty_spec();
                assert forall|asn: Seq<int>|
                    #[trigger] within(asn, self.vstore.doms_spec()) implies !satisfies_all(
                    asn,
                    self.cstore.props@,
                ) by {
                    assert(self.vstore.doms_spec()[i].contains_spec(asn[i]));
                }
            }
            return Trilean::False;
        }
        proof {
            assert(all_nonempty(self.vstore.doms_spec()));
        }
        let r = self.cstore.fixpoint(&mut self.vstore);
        proof {
            if r == Trilean::Unknown {
                let k = choose|k: int|
                    0 <= k < self.cstore.props@.len() && #[trigger] self.cstore.active@[k];
                assert(self.cstore.props@[k].subsumed_spec(self.vstore.doms_spec())
                    == Trilean::Unknown);
            }
            if r == Trilean::True {
                assert forall|asn: Seq<int>|
                    within(asn, self.vstore.doms_spec()) implies satisfies_all(
                    asn,
                    self.cstore.props@,
                ) by {
                    assert forall|k: int|
                        0 <= k < self.cstore.props@.len() implies (
                    #[trigger] self.cstore.props@[k]).sem(asn) by {
                        assert(doms_wf(self.vstore.doms_spec()));
                        lemma_subsumed_true_sem(
                            self.cstore.props@[k],
                            self.vstore.doms_spec(),
                            asn,
                        );
                    }
                }
            }
        }
        r
    }

    /// Turn the space into an immutable snapshot.
    pub fn freeze(self) -> (r: FrozenSpace)
        ensures
            r.space == self,
    {
        FrozenSpace { space: self }
    }
}

impl FrozenSpace {
    /// A fresh mutable space, observationally equal to the snapshot.
    pub fn restore(&self) -> (r: Space)
        ensures
            r.vstore.doms_spec() == self.space.vstore.doms_spec(),
            r.vstore.delta_spec() == self.space.vstore.delta_spec(),
            r.cstore.props@ == self.space.cstore.props@,
            r.cstore.active@ == self.space.cstore.active@,
            r.cstore.reactor@ == self.space.cstore.reactor@,
            r.cstore.queue@ == self.space.cstore.queue@,
            r.cstore.queued@ == self.space.cstore.queued@,
            self.space.wf() ==> r.wf(),
    {
        let r = Space {
            vstore: self.space.vstore.duplicate(),
            cstore: self.space.cstore.duplicate(),
        };
        proof {
            if self.space.wf() {
                assert forall|k: int|
                    0 <= k < r.cstore.props@.len() && (#[trigger] r.cstore.active@[k])
                        && !r.cstore.queued@[k] && !pending(r.cstore, r.vstore, k) implies prop_stable(
                    r.cstore.props@[k],
                    r.vstore.doms_spec(),
                ) && r.cstore.props@[k].subsumed_spec(r.vstore.doms_spec())
                    == Trilean::Unknown by {
                    assert(!pending(self.space.cstore, self.space.vstore, k)) by {
                        if pending(self.space.cstore, self.space.vstore, k) {
                            let v = choose|v: int|
                                #[trigger] self.space.cstore.props@[k].vars_spec().contains(v)
                                    && self.space.vstore.delta_spec().dom().contains(v);
                            assert(r.cstore.props@[k].vars_spec().contains(v));
                            assert(r.vstore.delta_spec().dom().contains(v));
                            assert(pending(r.cstore, r.vstore, k));
                        }
                    }
                    assert(self.space.cstore.active@[k] && !self.space.cstore.queued@[k]);
                    assert(prop_stable(
                        self.space.cstore.props@[k],
                        self.space.vstore.doms_spec(),
                    ));
                    assert(self.space.cstore.props@[k].subsumed_spec(
                        self.space.vstore.doms_spec(),
                    ) == Trilean::Unknown);
                }
            }
        }
        r
    }
}

/// One child of a search node: its own copy of the parent snapshot and the
/// constraint that the branch adds.
pub struct Branch {
    pub parent: FrozenSpace,
    pub op: Prop,
}

impl Branch {
    pub open spec fn wf(&self) -> bool {
        &&& self.parent.space.wf()
        &&& self.op.wf()
        &&& self.op.bound_spec(self.parent.space.vstore.doms_spec().len() as int)
    }

    /// Produce the child space: the parent state with the branch's
    /// constraint posted.
    pub fn commit(self) -> (r: Space)
        requires
            self.wf(),
        ensures
            r.wf(),
            r.vstore.doms_spec() == self.parent.space.vstore.doms_spec(),
            r.cstore.props@ == self.parent.space.cstore.props@.push(self.op),
            forall|asn: Seq<int>| #[trigger] node_admits(r, asn) == branch_admits(self, asn),
    {
        let Branch { parent, op } = self;
        let mut space = parent.space;
        let ghost pre = space;
        space.cstore.allocate(op);
        proof {
            assert forall|k: int|
                0 <= k < space.cstore.props@.len() && (#[trigger] space.cstore.active@[k])
                    && !space.cstore.queued@[k] && !pending(
                    space.cstore,
                    space.vstore,
                    k,
                ) implies prop_stable(space.cstore.props@[k], space.vstore.doms_spec())
                && space.cstore.props@[k].subsumed_spec(space.vstore.doms_spec())
                    == Trilean::Unknown by {
                if k < pre.cstore.props@.len() {
                    assert(space.cstore.props@[k] == pre.cstore.props@[k]);
                    assert(pre.cstore.active@[k] && !pre.cstore.queued@[k]);
                    assert(!pending(pre.cstore, pre.vstore, k)) by {
                        if pending(pre.cstore, pre.vstore, k) {
                            let v = choose|v: int|
                                #[trigger] pre.cstore.props@[k].vars_spec().contains(v)
                                    && pre.vstore.delta_spec().dom().contains(v);
                            assert(space.cstore.props@[k].vars_spec().contains(v));
                            assert(pending(space.cstore, space.vstore, k));
                        }
                    }
                    assert(prop_stable(pre.cstore.props@[k], pre.vstore.doms_spec()));
                    assert(pre.cstore.props@[k].subsumed_spec(pre.vstore.doms_spec())
                        == Trilean::Unknown);
                } else {
                    assert(space.cstore.queued@[k]);
                }
            }
            assert forall|asn: Seq<int>| #[trigger] node_admits(space, asn) == branch_admits(
                Branch { parent, op },
                asn,
            ) by {
                let ps = parent.space.cstore.props@;
                if node_admits(space, asn) {
                    assert forall|k: int| 0 <= k < ps.len() implies (#[trigger] ps[k]).sem(
                        asn,
                    ) by {
                        assert(space.cstore.props@[k] == ps[k]);
                        assert(space.cstore.props@[k].sem(asn));
                    }
                    assert(space.cstore.props@[ps.len() as int] == op);
                    assert(op.sem(asn));
                }
                if branch_admits(Branch { parent, op }, asn) {
                    assert forall|k: int|
                        0 <= k < space.cstore.props@.len() implies (
                    #[trigger] space.cstore.props@[k]).sem(asn) by {
                        if k < ps.len() {
                            assert(space.cstore.props@[k] == ps[k]);
                            assert(ps[k].sem(asn));
                        } else {
                            assert(space.cstore.props@[k] == op);
                        }
                    }
                }
            }
        }
        space
    }
}

} // verus!
