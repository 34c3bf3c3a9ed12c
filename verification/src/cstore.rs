use vstd::prelude::*;
use crate::event::FDEvent;
use crate::interval::Interval;
use crate::props::{Prop, agree_on, lemma_apply_local, lemma_apply_preserves_solutions, lemma_stable_frame, lemma_subsumed_false_no_solution, lemma_subsumed_frame, lemma_subsumed_stable, prop_stable, satisfies_all, within};
use crate::trilean::Trilean;
use crate::vstore::{VStore, all_nonempty, doms_wf, evolves, shrinks};

verus! {

/// Total number of values over all domains; the strictly decreasing measure
/// of the propagation loop.
pub open spec fn total_card_from(doms: Seq<Interval>, i: int) -> int
    decreases doms.len() - i,
{
    if i < 0 || i >= doms.len() {
        0
    } else {
        doms[i].card_spec() + total_card_from(doms, i + 1)
    }
}

pub open spec fn total_card(doms: Seq<Interval>) -> int {
    total_card_from(doms, 0)
}

/// The total cardinality is never negative.
pub proof fn lemma_total_card_nonneg(doms: Seq<Interval>, i: int)
    ensures
        total_card_from(doms, i) >= 0,
    decreases doms.len() - i,
{
    if 0 <= i && i < doms.len() {
        lemma_total_card_nonneg(doms, i + 1);
    }
}

/// A monotonic shrink never grows the total cardinality, and strictly
/// shrinks it when some (nonempty) domain changed.
pub proof fn lemma_total_card_from(d1: Seq<Interval>, d2: Seq<Interval>, i: int)
    requires
        shrinks(d1, d2),
        all_nonempty(d2),
        0 <= i,
    ensures
        total_card_from(d2, i) <= total_card_from(d1, i),
        (exists|j: int| i <= j < d1.len() && d1[j] != d2[j]) ==> total_card_from(d2, i)
            < total_card_from(d1, i),
    decreases d1.len() - i,
{
    if i < d1.len() {
        lemma_total_card_from(d1, d2, i + 1);
        assert(d2[i].subset_spec(d1[i]));
        assert(!d2[i].is_empty_spec());
        assert(d2[i].card_spec() <= d1[i].card_spec());
        if exists|j: int| i <= j < d1.len() && d1[j] != d2[j] {
            let j = choose|j: int| i <= j < d1.len() && d1[j] != d2[j];
            if j == i {
                assert(d2[i].card_spec() < d1[i].card_spec());
            } else {
                assert(i + 1 <= j < d1.len() && d1[j] != d2[j]);
            }
        }
    }
}

/// Some reactor entry subscribes propagator `k` to variable `v` at a
/// threshold no higher than `Bound`.
pub open spec fn reactor_listens(entries: Seq<(usize, FDEvent, usize)>, v: int, k: int) -> bool {
    exists|j: int|
        0 <= j < entries.len() && (#[trigger] entries[j]).0 as int == v && entries[j].2 as int == k
            && entries[j].1.rank() <= FDEvent::Bound.rank()
}

/// The dependency `d` of propagator `id` has its subscription entry.
pub open spec fn dep_entry(
    entries: Seq<(usize, FDEvent, usize)>,
    d: (usize, FDEvent),
    id: usize,
) -> bool {
    exists|j: int| 0 <= j < entries.len() && #[trigger] entries[j] == (d.0, d.1, id)
}

/// Some event is pending for propagator `k`: the delta buffer holds an
/// entry for one of its variables.
pub open spec fn pending(cs: CStore, s: VStore, k: int) -> bool {
    exists|v: int|
        #[trigger] cs.props@[k].vars_spec().contains(v) && s.delta_spec().dom().contains(v)
}

/// Every active propagator is scheduled, has a pending event that will
/// schedule it, or is already stable on the current store with its
/// subsumption still undecided.  This is the heart of the fixed-point
/// argument: when the queue and the delta buffer are both empty, every
/// live propagator is stable and genuinely undecided.
pub open spec fn stable_or_scheduled(cs: CStore, s: VStore) -> bool {
    forall|k: int|
        0 <= k < cs.props@.len() && (#[trigger] cs.active@[k]) && !cs.queued@[k] && !pending(
            cs,
            s,
            k,
        ) ==> prop_stable(cs.props@[k], s.doms_spec()) && cs.props@[k].subsumed_spec(s.doms_spec())
            == Trilean::Unknown
}

/// The constraint store: the propagators, which of them are still active
/// (not yet entailed), the reactor (subscriptions of propagators to
/// variable events), and the FIFO scheduler with its membership flags (a
/// propagator is queued at most once).
pub struct CStore {
    pub props: Vec<Prop>,
    pub active: Vec<bool>,
    pub reactor: Vec<(usize, FDEvent, usize)>,
    pub queue: Vec<usize>,
    pub queued: Vec<bool>,
}

impl CStore {
    pub open spec fn wf(&self) -> bool {
        &&& self.active@.len() == self.props@.len()
        &&& self.queued@.len() == self.props@.len()
        &&& forall|k: int| 0 <= k < self.props@.len() ==> (#[trigger] self.props@[k]).wf()
        &&& forall|i: int|
            0 <= i < self.queue@.len() ==> (#[trigger] self.queue@[i]) < self.props@.len()
                && self.queued@[self.queue@[i] as int]
        &&& forall|k: int|
            0 <= k < self.queued@.len() && (#[trigger] self.queued@[k]) ==> exists|i: int|
                0 <= i < self.queue@.len() && self.queue@[i] == k
        &&& forall|i: int, j: int|
            0 <= i < j < self.queue@.len() ==> self.queue@[i] != self.queue@[j]
        &&& forall|j: int|
            0 <= j < self.reactor@.len() ==> (#[trigger] self.reactor@[j]).2 < self.props@.len()
        &&& forall|k: int, v: int|
            0 <= k < self.props@.len() && #[trigger] self.props@[k].vars_spec().contains(v)
                ==> reactor_listens(self.reactor@, v, k)
    }

    /// Every propagator's variables lie below `n`.
    pub open spec fn bound_spec(&self, n: int) -> bool {
        forall|k: int| 0 <= k < self.props@.len() ==> (#[trigger] self.props@[k]).bound_spec(n)
    }

    /// Every retired propagator is entailed by `doms`.
    pub open spec fn retired_entailed(&self, doms: Seq<Interval>) -> bool {
        forall|k: int|
            0 <= k < self.props@.len() && !(#[trigger] self.active@[k])
                ==> self.props@[k].subsumed_spec(doms) == Trilean::True
    }

    pub fn empty() -> (r: CStore)
        ensures
            r.wf(),
            r.props@.len() == 0,
            r.queue@.len() == 0,
    {
        CStore {
            props: Vec::new(),
            active: Vec::new(),
            reactor: Vec::new(),
            queue: Vec::new(),
            queued: Vec::new(),
        }
    }

    /// Put propagator `k` in the scheduler queue unless it is already there.
    fn schedule(&mut self, k: usize)
        requires
            old(self).wf(),
            k < old(self).props@.len(),
        ensures
            final(self).wf(),
            final(self).props@ == old(self).props@,
            final(self).active@ == old(self).active@,
            final(self).reactor@ == old(self).reactor@,
            final(self).queued@ == old(self).queued@.update(k as int, true),
            old(self).queued@[k as int] ==> final(self).queue@ == old(self).queue@,
            !old(self).queued@[k as int] ==> final(self).queue@ == old(self).queue@.push(k),
    {
        if !self.queued[k] {
            self.queued.set(k, true);
            self.queue.push(k);
            proof {
                assert forall|i: int|
                    0 <= i < self.queue@.len() implies (#[trigger] self.queue@[i])
                    < self.props@.len() && self.queued@[self.queue@[i] as int] by {
                    if i < old(self).queue@.len() {
                        assert(self.queue@[i] == old(self).queue@[i]);
                    } else {
                        assert(self.queue@[i] == k);
                    }
                }
                assert forall|j: int|
                    0 <= j < self.queued@.len() && (#[trigger] self.queued@[j]) implies exists|
                    i: int,
                |
                    0 <= i < self.queue@.len() && self.queue@[i] == j by {
                    if j != k as int {
                        assert(old(self).queued@[j]);
                        let i = choose|i: int|
                            0 <= i < old(self).queue@.len() && old(self).queue@[i] == j;
                        assert(self.queue@[i] == j);
                    } else {
                        assert(self.queue@[old(self).queue@.len() as int] == k);
                    }
                }
                assert forall|i: int, j: int|
                    0 <= i < j < self.queue@.len() implies self.queue@[i] != self.queue@[j] by {
                    if j < old(self).queue@.len() {
                        assert(old(self).queue@[i] != old(self).queue@[j]);
                    } else {
                        assert(self.queue@[j] == k);
                        assert(self.queue@[i] == old(self).queue@[i]);
                        assert(old(self).queued@[old(self).queue@[i] as int]);
                    }
                }
            }
        } else {
            proof {
                assert(self.queued@ =~= old(self).queued@.update(k as int, true));
            }
        }
    }

    /// Add a propagator: give it an id, subscribe its dependencies in the
    /// reactor, and schedule it for an initial run.
    pub fn allocate(&mut self, p: Prop) -> (id: usize)
        requires
            old(self).wf(),
            p.wf(),
        ensures
            final(self).wf(),
            id == old(self).props@.len(),
            final(self).props@ == old(self).props@.push(p),
            final(self).active@ == old(self).active@.push(true),
            final(self).queued@ == old(self).queued@.push(true),
            final(self).queue@ == old(self).queue@.push(id),
            forall|n: int|
                old(self).bound_spec(n) && p.bound_spec(n) ==> final(self).bound_spec(n),
            forall|doms: Seq<Interval>|
                old(self).retired_entailed(doms) ==> final(self).retired_entailed(doms),
    {
        let id = self.props.len();
        let deps = p.dependencies();
        self.props.push(p);
        self.active.push(true);
        self.queued.push(true);
        self.queue.push(id);
        proof {
            assert forall|i: int|
                0 <= i < self.queue@.len() implies (#[trigger] self.queue@[i]) < self.props@.len()
                && self.queued@[self.queue@[i] as int] by {
                if i < old(self).queue@.len() {
                    assert(self.queue@[i] == old(self).queue@[i]);
                    assert(old(self).queued@[old(self).queue@[i] as int]);
                } else {
                    assert(self.queue@[i] == id);
                }
            }
            assert forall|j: int|
                0 <= j < self.queued@.len() && (#[trigger] self.queued@[j]) implies exists|i: int|
                0 <= i < self.queue@.len() && self.queue@[i] == j by {
                if j < old(self).queued@.len() {
                    assert(old(self).queued@[j]);
                    let i = choose|i: int|
                        0 <= i < old(self).queue@.len() && old(self).queue@[i] == j;
                    assert(self.queue@[i] == j);
                } else {
                    assert(self.queue@[old(self).queue@.len() as int] == id);
                }
            }
            assert forall|i: int, j: int|
                0 <= i < j < self.queue@.len() implies self.queue@[i] != self.queue@[j] by {
                if j < old(self).queue@.len() {
                    assert(old(self).queue@[i] != old(self).queue@[j]);
                } else {
                    assert(self.queue@[i] == old(self).queue@[i]);
                    assert(old(self).queue@[i] < old(self).props@.len());
                }
            }
        }
        let ghost mid = *self;
        let n = deps.len();
        let mut m: usize = 0;
        while m < n
            invariant
                n == deps@.len(),
                m <= n,
                self.props@ == mid.props@,
                self.active@ == mid.active@,
                self.queue@ == mid.queue@,
                self.queued@ == mid.queued@,
                id < self.props@.len(),
                self.reactor@.len() >= mid.reactor@.len(),
                forall|j: int|
                    0 <= j < mid.reactor@.len() ==> #[trigger] self.reactor@[j]
                        == mid.reactor@[j],
                forall|j: int|
                    0 <= j < self.reactor@.len() ==> (#[trigger] self.reactor@[j]).2
                        < self.props@.len(),
                forall|i: int| 0 <= i < m ==> dep_entry(self.reactor@, #[trigger] deps@[i], id),
            decreases n - m,
        {
            let (v, t) = deps[m];
            let ghost pre = self.reactor@;
            self.reactor.push((v, t, id));
            proof {
                assert forall|i: int| 0 <= i < m + 1 implies dep_entry(
                    self.reactor@,
                    #[trigger] deps@[i],
                    id,
                ) by {
                    if i < m {
                        assert(dep_entry(pre, deps@[i], id));
                        let j = choose|j: int|
                            0 <= j < pre.len() && #[trigger] pre[j] == (deps@[i].0, deps@[i].1, id);
                        assert(self.reactor@[j] == pre[j]);
                    } else {
                        assert(self.reactor@[pre.len() as int] == (v, t, id));
                    }
                }
                assert forall|j: int|
                    0 <= j < mid.reactor@.len() implies #[trigger] self.reactor@[j]
                    == mid.reactor@[j] by {
                    assert(self.reactor@[j] == pre[j]);
                }
            }
            m += 1;
        }
        proof {
            assert forall|k: int, v: int|
                0 <= k < self.props@.len() && #[trigger] self.props@[k].vars_spec().contains(
                v,
            ) implies reactor_listens(self.reactor@, v, k) by {
                if k < id as int {
                    assert(self.props@[k] == old(self).props@[k]);
                    assert(old(self).props@[k].vars_spec().contains(v));
                    assert(reactor_listens(old(self).reactor@, v, k));
                    let j = choose|j: int|
                        0 <= j < old(self).reactor@.len() && (#[trigger] old(self).reactor@[j]).0
                            as int == v && old(self).reactor@[j].2 as int == k
                            && old(self).reactor@[j].1.rank() <= FDEvent::Bound.rank();
                    assert(mid.reactor@ == old(self).reactor@);
                    assert(self.reactor@[j] == mid.reactor@[j]);
                } else {
                    assert(self.props@[k] == p);
                    let i = choose|i: int|
                        0 <= i < deps@.len() && (#[trigger] deps@[i]).0 as int == v;
                    assert(dep_entry(self.reactor@, deps@[i], id));
                    let j = choose|j: int|
                        0 <= j < self.reactor@.len() && #[trigger] self.reactor@[j] == (
                        deps@[i].0,
                        deps@[i].1,
                        id,
                        );
                    assert(deps@[i].1.rank() <= FDEvent::Bound.rank());
                    assert(self.reactor@[j].0 as int == v);
                }
            }
            assert forall|k: int|
                0 <= k < self.queued@.len() && (#[trigger] self.queued@[k]) implies exists|i: int|
                0 <= i < self.queue@.len() && self.queue@[i] == k by {
                assert(mid.queued@[k]);
                let i = choose|i: int| 0 <= i < mid.queue@.len() && mid.queue@[i] == k;
                assert(self.queue@[i] == k);
            }
            assert forall|doms: Seq<Interval>|
                old(self).retired_entailed(doms) implies self.retired_entailed(doms) by {
                assert forall|k: int|
                    0 <= k < self.props@.len() && !(#[trigger] self.active@[k]) implies self.props@[k].subsumed_spec(
                    doms,
                ) == Trilean::True by {
                    assert(k < old(self).props@.len());
                    assert(!old(self).active@[k]);
                    assert(self.props@[k] == old(self).props@[k]);
                }
            }
        }
        id
    }
}


/// Zero when the delta buffer is empty, one otherwise; the middle component
/// of the propagation loop's termination measure.
pub open spec fn delta_flag(s: VStore) -> int {
    if s.delta_spec().dom() =~= Set::<int>::empty() {
        0
    } else {
        1
    }
}

impl CStore {
    /// Drive the store to a fixed point: drain events, wake the subscribed
    /// propagators, run them until the queue empties, retiring each one
    /// that becomes entailed.  Returns `True` when every propagator is
    /// entailed, `False` on failure (a domain would become empty or a
    /// propagator is violated), `Unknown` otherwise.
    #[verifier::rlimit(60)]
    pub fn fixpoint(&mut self, store: &mut VStore) -> (r: Trilean)
        requires
            old(self).wf(),
            old(store).wf(),
            old(self).bound_spec(old(store).doms_spec().len() as int),
            all_nonempty(old(store).doms_spec()),
            old(self).retired_entailed(old(store).doms_spec()),
            stable_or_scheduled(*old(self), *old(store)),
        ensures
            final(self).wf(),
            final(store).wf(),
            final(self).props@ == old(self).props@,
            final(store).doms_spec().len() == old(store).doms_spec().len(),
            shrinks(old(store).doms_spec(), final(store).doms_spec()),
            all_nonempty(final(store).doms_spec()),
            final(self).retired_entailed(final(store).doms_spec()),
            final(self).bound_spec(old(store).doms_spec().len() as int),
            r == Trilean::True ==> forall|k: int|
                0 <= k < final(self).props@.len() ==> (#[trigger] final(self).props@[k]).subsumed_spec(
                    final(store).doms_spec(),
                ) == Trilean::True,
            r == Trilean::Unknown ==> final(store).delta_spec().dom() =~= Set::<int>::empty(),
            r != Trilean::False ==> stable_or_scheduled(*final(self), *final(store)),
            r == Trilean::False ==> forall|asn: Seq<int>|
                #[trigger] within(asn, old(store).doms_spec()) ==> !satisfies_all(
                    asn,
                    old(self).props@,
                ),
            r != Trilean::False ==> forall|asn: Seq<int>|
                #[trigger] within(asn, old(store).doms_spec()) && satisfies_all(
                    asn,
                    old(self).props@,
                ) ==> within(asn, final(store).doms_spec()),
            r == Trilean::Unknown ==> forall|k: int|
                0 <= k < final(self).props@.len() && (#[trigger] final(self).active@[k])
                    ==> prop_stable(final(self).props@[k], final(store).doms_spec())
                    && final(self).props@[k].subsumed_spec(final(store).doms_spec())
                    == Trilean::Unknown,
            r == Trilean::Unknown ==> exists|k: int|
                0 <= k < final(self).props@.len() && #[trigger] final(self).active@[k],
    {
        loop
            invariant
                self.wf(),
                store.wf(),
                self.props@ == old(self).props@,
                self.bound_spec(old(store).doms_spec().len() as int),
                store.doms_spec().len() == old(store).doms_spec().len(),
                shrinks(old(store).doms_spec(), store.doms_spec()),
                all_nonempty(store.doms_spec()),
                self.retired_entailed(store.doms_spec()),
                stable_or_scheduled(*self, *store),
                forall|asn: Seq<int>|
                    #[trigger] within(asn, old(store).doms_spec()) && satisfies_all(
                        asn,
                        self.props@,
                    ) ==> within(asn, store.doms_spec()),
            decreases total_card(store.doms_spec()), delta_flag(*store), self.queue@.len(),
        {
            let ghost head_store = *store;
            let ghost head_cs = *self;
            let events = store.drain_delta();
            let ne = events.len();
            let mut m: usize = 0;
            while m < ne
                invariant
                    ne == events@.len(),
                    m <= ne,
                    self.wf(),
                    self.props@ == head_cs.props@,
                    self.active@ == head_cs.active@,
                    self.reactor@ == head_cs.reactor@,
                    ne == 0 ==> self.queue@ == head_cs.queue@,
                    self.queued@.len() == head_cs.queued@.len(),
                    forall|k2: int|
                        0 <= k2 < head_cs.queued@.len() && (#[trigger] head_cs.queued@[k2])
                            ==> self.queued@[k2],
                    forall|i: int, j: int|
                        #![trigger self.reactor@[j], events@[i]]
                        0 <= i < m && 0 <= j < self.reactor@.len() && self.reactor@[j].0
                            == events@[i].0 && self.reactor@[j].1.rank() <= events@[i].1.rank()
                            ==> self.queued@[self.reactor@[j].2 as int],
                decreases ne - m,
            {
                let (v, e) = events[m];
                let nr = self.reactor.len();
                let mut j: usize = 0;
                while j < nr
                    invariant
                        nr == self.reactor@.len(),
                        j <= nr,
                        self.wf(),
                        self.props@ == head_cs.props@,
                        self.active@ == head_cs.active@,
                        self.reactor@ == head_cs.reactor@,
                        m < ne,
                        (v, e) == events@[m as int],
                        self.queued@.len() == head_cs.queued@.len(),
                        forall|k2: int|
                            0 <= k2 < head_cs.queued@.len() && (#[trigger] head_cs.queued@[k2])
                                ==> self.queued@[k2],
                        forall|i: int, j2: int|
                            #![trigger self.reactor@[j2], events@[i]]
                            0 <= i < m && 0 <= j2 < self.reactor@.len() && self.reactor@[j2].0
                                == events@[i].0 && self.reactor@[j2].1.rank()
                                <= events@[i].1.rank() ==> self.queued@[self.reactor@[j2].2 as int],
                        forall|j2: int|
                            0 <= j2 < j && (#[trigger] self.reactor@[j2]).0 == v
                                && self.reactor@[j2].1.rank() <= e.rank()
                                ==> self.queued@[self.reactor@[j2].2 as int],
                    decreases nr - j,
                {
                    let (rv, rt, rid) = self.reactor[j];
                    if rv == v && rt.le(e) {
                        let ghost before = *self;
                        self.schedule(rid);
                        proof {
                            assert forall|k2: int|
                                0 <= k2 < head_cs.queued@.len() && (
                            #[trigger] head_cs.queued@[k2]) implies self.queued@[k2] by {
                                assert(before.queued@[k2]);
                            }
                            assert forall|i: int, j2: int|
                                #![trigger self.reactor@[j2], events@[i]]
                                0 <= i < m && 0 <= j2 < self.reactor@.len() && self.reactor@[j2].0
                                    == events@[i].0 && self.reactor@[j2].1.rank()
                                    <= events@[i].1.rank() implies self.queued@[self.reactor@[j2].2
                                as int] by {
                                assert(before.queued@[before.reactor@[j2].2 as int]);
                            }
                            assert forall|j2: int|
                                0 <= j2 < j + 1 && (#[trigger] self.reactor@[j2]).0 == v
                                    && self.reactor@[j2].1.rank()
                                    <= e.rank() implies self.queued@[self.reactor@[j2].2
                                as int] by {
                                if j2 < j {
                                    assert(before.queued@[before.reactor@[j2].2 as int]);
                                } else {
                                    assert(self.reactor@[j2] == (rv, rt, rid));
                                }
                            }
                        }
                    } else {
                        proof {
                            assert forall|j2: int|
                                0 <= j2 < j + 1 && (#[trigger] self.reactor@[j2]).0 == v
                                    && self.reactor@[j2].1.rank()
                                    <= e.rank() implies self.queued@[self.reactor@[j2].2
                                as int] by {
                                if j2 == j {
                                    assert(self.reactor@[j2] == (rv, rt, rid));
                                    assert(rt.le_spec(e));
                                    assert(false);
                                }
                            }
                        }
                    }
                    j += 1;
                }
                proof {
                    assert forall|i: int, j2: int|
                        #![trigger self.reactor@[j2], events@[i]]
                        0 <= i < m + 1 && 0 <= j2 < self.reactor@.len() && self.reactor@[j2].0
                            == events@[i].0 && self.reactor@[j2].1.rank()
                            <= events@[i].1.rank() implies self.queued@[self.reactor@[j2].2 as int] by {
                        if i == m {
                            assert(events@[i] == (v, e));
                        }
                    }
                }
                m += 1;
            }
            let ghost wake_cs = *self;
            proof {
                assert forall|k: int|
                    0 <= k < wake_cs.props@.len() && wake_cs.active@[k] && !(
                #[trigger] wake_cs.queued@[k]) implies prop_stable(
                    wake_cs.props@[k],
                    head_store.doms_spec(),
                ) && wake_cs.props@[k].subsumed_spec(head_store.doms_spec())
                    == Trilean::Unknown by {
                    assert(!head_cs.queued@[k]);
                    assert forall|v: int|
                        #[trigger] wake_cs.props@[k].vars_spec().contains(
                        v,
                    ) implies !head_store.delta_spec().dom().contains(v) by {
                        if head_store.delta_spec().dom().contains(v) {
                            let i = choose|i: int|
                                0 <= i < events@.len() && (#[trigger] events@[i]).0 as int == v;
                            assert(events@[i].1 == head_store.delta_spec()[v]);
                            assert(events@[i].1.rank() >= FDEvent::Bound.rank());
                            assert(head_cs.props@[k].vars_spec().contains(v));
                            assert(reactor_listens(head_cs.reactor@, v, k));
                            let j = choose|j: int|
                                0 <= j < wake_cs.reactor@.len() && (
                                #[trigger] wake_cs.reactor@[j]).0 as int == v
                                    && wake_cs.reactor@[j].2 as int == k
                                    && wake_cs.reactor@[j].1.rank() <= FDEvent::Bound.rank();
                            assert(wake_cs.reactor@[j].0 == events@[i].0);
                            assert(wake_cs.queued@[wake_cs.reactor@[j].2 as int]);
                            assert(false);
                        }
                    }
                    assert(!pending(head_cs, head_store, k));
                    assert(prop_stable(head_cs.props@[k], head_store.doms_spec()));
                    assert(head_cs.props@[k].subsumed_spec(head_store.doms_spec())
                        == Trilean::Unknown);
                }
            }
            if self.queue.len() == 0 {
                let np = self.active.len();
                let mut k: usize = 0;
                let mut any_active = false;
                while k < np
                    invariant
                        np == self.active@.len(),
                        k <= np,
                        any_active == exists|j: int| 0 <= j < k && self.active@[j],
                    decreases np - k,
                {
                    if self.active[k] {
                        any_active = true;
                        proof {
                            assert(self.active@[k as int]);
                        }
                    }
                    k += 1;
                }
                proof {
                    assert forall|k2: int|
                        0 <= k2 < self.props@.len() && (#[trigger] self.active@[k2]) implies prop_stable(
                        self.props@[k2],
                        store.doms_spec(),
                    ) && self.props@[k2].subsumed_spec(store.doms_spec()) == Trilean::Unknown by {
                        if self.queued@[k2] {
                            let i = choose|i: int|
                                0 <= i < self.queue@.len() && self.queue@[i] == k2;
                            assert(false);
                        }
                        assert(wake_cs.active@[k2] && !wake_cs.queued@[k2]);
                        assert(prop_stable(wake_cs.props@[k2], head_store.doms_spec()));
                        assert(wake_cs.props@[k2].subsumed_spec(head_store.doms_spec())
                            == Trilean::Unknown);
                    }
                }
                if !any_active {
                    proof {
                        assert forall|k2: int|
                            0 <= k2 < self.props@.len() implies (
                        #[trigger] self.props@[k2]).subsumed_spec(store.doms_spec())
                            == Trilean::True by {
                            assert(!self.active@[k2]);
                        }
                    }
                    return Trilean::True;
                }
                return Trilean::Unknown;
            }
            let ghost q_cs = *self;
            let pid = self.queue.remove(0);
            self.queued.set(pid, false);
            proof {
                assert(q_cs.queue@[0] == pid);
                assert forall|i: int|
                    0 <= i < self.queue@.len() implies (#[trigger] self.queue@[i])
                    < self.props@.len() && self.queued@[self.queue@[i] as int] by {
                    assert(self.queue@[i] == q_cs.queue@[i + 1]);
                    assert(q_cs.queue@[i + 1] != pid);
                }
                assert forall|k2: int|
                    0 <= k2 < self.queued@.len() && (#[trigger] self.queued@[k2]) implies exists|
                    i: int,
                |
                    0 <= i < self.queue@.len() && self.queue@[i] == k2 by {
                    assert(q_cs.queued@[k2]);
                    let i = choose|i: int| 0 <= i < q_cs.queue@.len() && q_cs.queue@[i] == k2;
                    assert(i != 0);
                    assert(self.queue@[i - 1] == k2);
                }
                assert forall|i: int, j2: int|
                    0 <= i < j2 < self.queue@.len() implies self.queue@[i] != self.queue@[j2] by {
                    assert(self.queue@[i] == q_cs.queue@[i + 1]);
                    assert(self.queue@[j2] == q_cs.queue@[j2 + 1]);
                }
            }
            if self.active[pid] {
                let ghost pre_store = *store;
                let ok = self.props[pid].propagate(store);
                proof {
                    assert(doms_wf(pre_store.doms_spec()));
                    assert(doms_wf(store.doms_spec()));
                    assert(shrinks(pre_store.doms_spec(), store.doms_spec()));
                    assert forall|i: int|
                        0 <= i < store.doms_spec().len() implies !(
                    #[trigger] store.doms_spec()[i]).is_empty_spec() by {
                        if store.doms_spec()[i] != pre_store.doms_spec()[i] {
                        } else {
                            assert(!pre_store.doms_spec()[i].is_empty_spec());
                        }
                    }
                    assert forall|k2: int|
                        0 <= k2 < self.props@.len() && !(
                    #[trigger] self.active@[k2]) implies self.props@[k2].subsumed_spec(
                        store.doms_spec(),
                    ) == Trilean::True by {
                        assert(self.props@[k2].subsumed_spec(pre_store.doms_spec())
                            == Trilean::True);
                        assert(self.props@[k2].bound_spec(old(store).doms_spec().len() as int));
                        lemma_subsumed_stable(
                            self.props@[k2],
                            pre_store.doms_spec(),
                            store.doms_spec(),
                        );
                    }
                }
                proof {
                    assert forall|asn: Seq<int>|
                        #[trigger] within(asn, old(store).doms_spec()) && satisfies_all(
                            asn,
                            self.props@,
                        ) implies within(asn, store.doms_spec()) by {
                        assert(within(asn, pre_store.doms_spec()));
                        assert(self.props@[pid as int].sem(asn));
                        assert(doms_wf(pre_store.doms_spec()));
                        lemma_apply_preserves_solutions(
                            self.props@[pid as int],
                            pre_store.doms_spec(),
                            asn,
                        );
                    }
                }
                if !ok {
                    proof {
                        assert forall|asn: Seq<int>|
                            #[trigger] within(asn, old(store).doms_spec()) implies !satisfies_all(
                            asn,
                            old(self).props@,
                        ) by {
                            if satisfies_all(asn, old(self).props@) {
                                assert(within(asn, pre_store.doms_spec()));
                                assert(self.props@[pid as int].sem(asn));
                                assert(doms_wf(pre_store.doms_spec()));
                                lemma_apply_preserves_solutions(
                                    self.props@[pid as int],
                                    pre_store.doms_spec(),
                                    asn,
                                );
                                assert(false);
                            }
                        }
                    }
                    return Trilean::False;
                }
                let sub = self.props[pid].is_subsumed(store);
                match sub {
                    Trilean::True => {
                        self.active.set(pid, false);
                        proof {
                            assert forall|k2: int|
                                0 <= k2 < self.props@.len() && !(
                            #[trigger] self.active@[k2]) implies self.props@[k2].subsumed_spec(
                                store.doms_spec(),
                            ) == Trilean::True by {
                                if k2 != pid as int {
                                    assert(!q_cs.active@[k2]);
                                }
                            }
                        }
                    },
                    Trilean::False => {
                        proof {
                            assert forall|asn: Seq<int>|
                                #[trigger] within(
                                asn,
                                old(store).doms_spec(),
                            ) implies !satisfies_all(asn, old(self).props@) by {
                                if satisfies_all(asn, old(self).props@) {
                                    assert(within(asn, store.doms_spec()));
                                    assert(self.props@[pid as int].sem(asn));
                                    assert(doms_wf(store.doms_spec()));
                                    lemma_subsumed_false_no_solution(
                                        self.props@[pid as int],
                                        store.doms_spec(),
                                        asn,
                                    );
                                    assert(false);
                                }
                            }
                        }
                        return Trilean::False;
                    },
                    Trilean::Unknown => {},
                }
                proof {
                    assert forall|k: int|
                        0 <= k < self.props@.len() && (#[trigger] self.active@[k])
                            && !self.queued@[k] && !pending(*self, *store, k) implies prop_stable(
                        self.props@[k],
                        store.doms_spec(),
                    ) && self.props@[k].subsumed_spec(store.doms_spec()) == Trilean::Unknown by {
                        if k == pid as int {
                            assert(sub != Trilean::True);
                            assert(self.props@[k].subsumed_spec(store.doms_spec())
                                == Trilean::Unknown);
                            if store.doms_spec() == pre_store.doms_spec() {
                                assert(self.props@[k].apply_spec(pre_store.doms_spec()) == (
                                store.doms_spec(),
                                true,
                                ));
                            } else {
                                assert(exists|w: int|
                                    0 <= w < pre_store.doms_spec().len()
                                        && pre_store.doms_spec()[w] != store.doms_spec()[w]) by {
                                    if forall|w: int|
                                        0 <= w < pre_store.doms_spec().len()
                                            ==> pre_store.doms_spec()[w]
                                            == #[trigger] store.doms_spec()[w] {
                                        assert(pre_store.doms_spec() =~= store.doms_spec());
                                    }
                                }
                                let w = choose|w: int|
                                    0 <= w < pre_store.doms_spec().len()
                                        && pre_store.doms_spec()[w] != store.doms_spec()[w];
                                assert(doms_wf(pre_store.doms_spec()));
                                lemma_apply_local(self.props@[k], pre_store.doms_spec());
                                assert(self.props@[k].vars_spec().contains(w));
                                assert(store.delta_spec().dom().contains(w));
                                assert(pending(*self, *store, k));
                                assert(false);
                            }
                        } else {
                            if wake_cs.queued@[k] {
                                assert(self.queued@[k]);
                                assert(false);
                            }
                            assert(wake_cs.active@[k]);
                            assert(prop_stable(wake_cs.props@[k], head_store.doms_spec()));
                            assert(wake_cs.props@[k].subsumed_spec(head_store.doms_spec())
                                == Trilean::Unknown);
                            if exists|v: int|
                                #[trigger] self.props@[k].vars_spec().contains(v)
                                    && store.doms_spec()[v] != head_store.doms_spec()[v] {
                                let v = choose|v: int|
                                    #[trigger] self.props@[k].vars_spec().contains(v)
                                        && store.doms_spec()[v] != head_store.doms_spec()[v];
                                assert(store.delta_spec().dom().contains(v));
                                assert(pending(*self, *store, k));
                                assert(false);
                            } else {
                                assert(agree_on(
                                    self.props@[k],
                                    head_store.doms_spec(),
                                    store.doms_spec(),
                                ));
                                assert(doms_wf(head_store.doms_spec()));
                                assert(doms_wf(store.doms_spec()));
                                assert(all_nonempty(head_store.doms_spec()));
                                lemma_stable_frame(
                                    self.props@[k],
                                    head_store.doms_spec(),
                                    store.doms_spec(),
                                );
                                lemma_subsumed_frame(
                                    self.props@[k],
                                    head_store.doms_spec(),
                                    store.doms_spec(),
                                );
                            }
                        }
                    }
                    if store.doms_spec() != head_store.doms_spec() {
                        assert(exists|j2: int|
                            0 <= j2 < head_store.doms_spec().len() && head_store.doms_spec()[j2]
                                != store.doms_spec()[j2]) by {
                            if forall|j2: int|
                                0 <= j2 < head_store.doms_spec().len()
                                    ==> head_store.doms_spec()[j2] == #[trigger] store.doms_spec()[j2] {
                                assert(head_store.doms_spec() =~= store.doms_spec());
                            }
                        }
                        lemma_total_card_from(head_store.doms_spec(), store.doms_spec(), 0);
                        assert(total_card(store.doms_spec())
                            < total_card(head_store.doms_spec()));
                    } else {
                        assert forall|k2: int|
                            !(#[trigger] store.delta_spec().dom().contains(k2)) by {
                            if store.delta_spec().dom().contains(k2) {
                                assert(pre_store.delta_spec().dom().contains(k2) || (
                                store.doms_spec()[k2] != pre_store.doms_spec()[k2]));
                            }
                        }
                        assert(store.delta_spec().dom() =~= Set::<int>::empty());
                        assert(delta_flag(*store) == 0);
                        if delta_flag(head_store) == 0 {
                            assert(events@.len() == 0) by {
                                if events@.len() > 0 {
                                    assert(head_store.delta_spec().dom().contains(
                                        events@[0].0 as int,
                                    ));
                                }
                            }
                            assert(self.queue@.len() < head_cs.queue@.len());
                        }
                    }
                }
            } else {
                proof {
                    assert forall|k: int|
                        0 <= k < self.props@.len() && (#[trigger] self.active@[k])
                            && !self.queued@[k] && !pending(*self, *store, k) implies prop_stable(
                        self.props@[k],
                        store.doms_spec(),
                    ) && self.props@[k].subsumed_spec(store.doms_spec()) == Trilean::Unknown by {
                        if k != pid as int && wake_cs.queued@[k] {
                            assert(self.queued@[k]);
                            assert(false);
                        }
                        assert(wake_cs.active@[k] && !wake_cs.queued@[k]);
                        assert(prop_stable(wake_cs.props@[k], head_store.doms_spec()));
                        assert(wake_cs.props@[k].subsumed_spec(head_store.doms_spec())
                            == Trilean::Unknown);
                    }
                    assert(store.doms_spec() == head_store.doms_spec());
                    assert(store.delta_spec().dom() =~= Set::<int>::empty());
                    if delta_flag(head_store) == 0 {
                        assert(events@.len() == 0) by {
                            if events@.len() > 0 {
                                assert(head_store.delta_spec().dom().contains(
                                    events@[0].0 as int,
                                ));
                            }
                        }
                        assert(self.queue@.len() < head_cs.queue@.len());
                    }
                }
            }
            proof {
                assert forall|k2: int|
                    0 <= k2 < self.queued@.len() && (#[trigger] self.queued@[k2]) implies exists|
                    i: int,
                |
                    0 <= i < self.queue@.len() && self.queue@[i] == k2 by {
                    assert(q_cs.queued@[k2]);
                    let i = choose|i: int| 0 <= i < q_cs.queue@.len() && q_cs.queue@[i] == k2;
                    assert(i != 0);
                    assert(self.queue@[i - 1] == k2);
                }
                lemma_total_card_nonneg(store.doms_spec(), 0);
                lemma_total_card_nonneg(head_store.doms_spec(), 0);
            }
        }
    }
}

} // verus!
