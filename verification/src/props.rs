use vstd::prelude::*;
use crate::event::FDEvent;
use crate::interval::Interval;
use crate::term::Term;
use crate::trilean::Trilean;
use crate::vstore::{VStore, evolves, lemma_evolves_trans};
use std::rc::Rc;

verus! {

/// Propagator for `x <= y` over two term views.
#[derive(Clone, Copy, PartialEq, Eq, Structural, Debug)]
pub struct XLessEqY {
    pub x: Term,
    pub y: Term,
}

/// Propagator for `x = y` over two term views.
#[derive(Clone, Copy, PartialEq, Eq, Structural, Debug)]
pub struct XEqY {
    pub x: Term,
    pub y: Term,
}

/// Propagator for `x != y` over two term views.
#[derive(Clone, Copy, PartialEq, Eq, Structural, Debug)]
pub struct XNeqY {
    pub x: Term,
    pub y: Term,
}

impl XLessEqY {
    pub open spec fn wf(self) -> bool {
        self.x.wf() && self.y.wf()
    }

    pub open spec fn vars_spec(self) -> Set<int> {
        self.x.deps_spec().union(self.y.deps_spec())
    }

    pub open spec fn bound_spec(self, n: int) -> bool {
        self.x.bound_spec(n) && self.y.bound_spec(n)
    }

    /// What the constraint means of a full assignment.
    pub open spec fn sem(self, asn: Seq<int>) -> bool {
        self.x.val_spec(asn) <= self.y.val_spec(asn)
    }

    /// Entailed when every value of x is below every value of y; violated
    /// when even the smallest x exceeds the largest y.
    pub open spec fn subsumed_spec(self, doms: Seq<Interval>) -> Trilean {
        let xd = self.x.read_spec(doms);
        let yd = self.y.read_spec(doms);
        if xd.hi <= yd.lo {
            Trilean::True
        } else if xd.lo > yd.hi {
            Trilean::False
        } else {
            Trilean::Unknown
        }
    }

    /// One propagation pass: clip x's upper bound to y's, then y's lower
    /// bound to x's original lower bound; false when a domain empties.
    pub open spec fn apply_spec(self, doms: Seq<Interval>) -> (Seq<Interval>, bool) {
        let xd = self.x.read_spec(doms);
        let yd = self.y.read_spec(doms);
        let nx = Interval { lo: xd.lo, hi: if xd.hi <= yd.hi { xd.hi } else { yd.hi } };
        if nx.is_empty_spec() {
            (doms, false)
        } else {
            let d1 = self.x.write_spec(doms, nx);
            let yd2 = self.y.read_spec(d1);
            let ny = Interval { lo: if yd2.lo >= xd.lo { yd2.lo } else { xd.lo }, hi: yd2.hi };
            if ny.is_empty_spec() {
                (d1, false)
            } else {
                (self.y.write_spec(d1, ny), true)
            }
        }
    }

    pub fn new(x: Term, y: Term) -> (r: XLessEqY)
        ensures
            r == (XLessEqY { x, y }),
    {
        XLessEqY { x, y }
    }

    pub fn is_subsumed(&self, store: &VStore) -> (r: Trilean)
        requires
            store.wf(),
            self.wf(),
            self.bound_spec(store.doms_spec().len() as int),
        ensures
            r == self.subsumed_spec(store.doms_spec()),
    {
        let xd = self.x.read(store);
        let yd = self.y.read(store);
        if xd.upper() <= yd.lower() {
            Trilean::True
        } else if xd.lower() > yd.upper() {
            Trilean::False
        } else {
            Trilean::Unknown
        }
    }

    pub fn propagate(&self, store: &mut VStore) -> (r: bool)
        requires
            old(store).wf(),
            self.wf(),
            self.bound_spec(old(store).doms_spec().len() as int),
        ensures
            final(store).wf(),
            evolves(*old(store), *final(store)),
            final(store).doms_spec() == self.apply_spec(old(store).doms_spec()).0,
            r == self.apply_spec(old(store).doms_spec()).1,
    {
        let xd = self.x.read(store);
        let yd = self.y.read(store);
        let nx = xd.intersect_leq(yd.upper());
        if !self.x.update(store, nx) {
            return false;
        }
        let ghost mid = *store;
        let yd2 = self.y.read(store);
        let ny = yd2.intersect_geq(xd.lower());
        let r = self.y.update(store, ny);
        proof {
            lemma_evolves_trans(*old(store), mid, *store);
        }
        r
    }

    /// Bound events on either side can change the subsumption status.
    pub fn dependencies(&self) -> (r: Vec<(usize, FDEvent)>)
        ensures
            forall|i: int|
                0 <= i < r@.len() ==> self.vars_spec().contains((#[trigger] r@[i]).0 as int)
                    && r@[i].1.rank() <= FDEvent::Bound.rank(),
            forall|v: int|
                self.vars_spec().contains(v) ==> exists|i: int|
                    0 <= i < r@.len() && (#[trigger] r@[i]).0 as int == v,
    {
        deps_of_two_terms(self.x, self.y)
    }
}

impl XEqY {
    pub open spec fn wf(self) -> bool {
        self.x.wf() && self.y.wf()
    }

    pub open spec fn vars_spec(self) -> Set<int> {
        self.x.deps_spec().union(self.y.deps_spec())
    }

    pub open spec fn bound_spec(self, n: int) -> bool {
        self.x.bound_spec(n) && self.y.bound_spec(n)
    }

    pub open spec fn sem(self, asn: Seq<int>) -> bool {
        self.x.val_spec(asn) == self.y.val_spec(asn)
    }

    /// Entailed when both sides read the same singleton; violated when the
    /// two domains are disjoint.
    pub open spec fn subsumed_spec(self, doms: Seq<Interval>) -> Trilean {
        let xd = self.x.read_spec(doms);
        let yd = self.y.read_spec(doms);
        if xd.is_singleton_spec() && yd.is_singleton_spec() && xd.lo == yd.lo {
            Trilean::True
        } else if xd.disjoint_spec(yd) {
            Trilean::False
        } else {
            Trilean::Unknown
        }
    }

    /// One propagation pass: intersect both sides.
    pub open spec fn apply_spec(self, doms: Seq<Interval>) -> (Seq<Interval>, bool) {
        let xd = self.x.read_spec(doms);
        let yd = self.y.read_spec(doms);
        let m = Interval {
            lo: if xd.lo >= yd.lo { xd.lo } else { yd.lo },
            hi: if xd.hi <= yd.hi { xd.hi } else { yd.hi },
        };
        if m.is_empty_spec() {
            (doms, false)
        } else {
            let d1 = self.x.write_spec(doms, m);
            let yd2 = self.y.read_spec(d1);
            let m2 = Interval {
                lo: if yd2.lo >= xd.lo { yd2.lo } else { xd.lo },
                hi: if yd2.hi <= xd.hi { yd2.hi } else { xd.hi },
            };
            if m2.is_empty_spec() {
                (d1, false)
            } else {
                (self.y.write_spec(d1, m2), true)
            }
        }
    }

    pub fn new(x: Term, y: Term) -> (r: XEqY)
        ensures
            r == (XEqY { x, y }),
    {
        XEqY { x, y }
    }

    pub fn is_subsumed(&self, store: &VStore) -> (r: Trilean)
        requires
            store.wf(),
            self.wf(),
            self.bound_spec(store.doms_spec().len() as int),
        ensures
            r == self.subsumed_spec(store.doms_spec()),
    {
        let xd = self.x.read(store);
        let yd = self.y.read(store);
        if xd.is_singleton() && yd.is_singleton() && xd.lower() == yd.lower() {
            Trilean::True
        } else if xd.is_disjoint(&yd) {
            Trilean::False
        } else {
            Trilean::Unknown
        }
    }

    pub fn propagate(&self, store: &mut VStore) -> (r: bool)
        requires
            old(store).wf(),
            self.wf(),
            self.bound_spec(old(store).doms_spec().len() as int),
        ensures
            final(store).wf(),
            evolves(*old(store), *final(store)),
            final(store).doms_spec() == self.apply_spec(old(store).doms_spec()).0,
            r == self.apply_spec(old(store).doms_spec()).1,
    {
        let xd = self.x.read(store);
        let yd = self.y.read(store);
        let m = xd.intersect(&yd);
        if !self.x.update(store, m) {
            return false;
        }
        let ghost mid = *store;
        let yd2 = self.y.read(store);
        let m2 = yd2.intersect(&xd);
        let r = self.y.update(store, m2);
        proof {
            lemma_evolves_trans(*old(store), mid, *store);
        }
        r
    }

    /// Bound events on either side can change the subsumption status.
    pub fn dependencies(&self) -> (r: Vec<(usize, FDEvent)>)
        ensures
            forall|i: int|
                0 <= i < r@.len() ==> self.vars_spec().contains((#[trigger] r@[i]).0 as int)
                    && r@[i].1.rank() <= FDEvent::Bound.rank(),
            forall|v: int|
                self.vars_spec().contains(v) ==> exists|i: int|
                    0 <= i < r@.len() && (#[trigger] r@[i]).0 as int == v,
    {
        deps_of_two_terms(self.x, self.y)
    }
}

impl XNeqY {
    pub open spec fn wf(self) -> bool {
        self.x.wf() && self.y.wf()
    }

    pub open spec fn vars_spec(self) -> Set<int> {
        self.x.deps_spec().union(self.y.deps_spec())
    }

    pub open spec fn bound_spec(self, n: int) -> bool {
        self.x.bound_spec(n) && self.y.bound_spec(n)
    }

    pub open spec fn sem(self, asn: Seq<int>) -> bool {
        self.x.val_spec(asn) != self.y.val_spec(asn)
    }

    /// Entailed when the domains are disjoint; violated when both sides are
    /// the same singleton.
    pub open spec fn subsumed_spec(self, doms: Seq<Interval>) -> Trilean {
        let xd = self.x.read_spec(doms);
        let yd = self.y.read_spec(doms);
        if xd.disjoint_spec(yd) {
            Trilean::True
        } else if xd.is_singleton_spec() && yd.is_singleton_spec() && xd.lo == yd.lo {
            Trilean::False
        } else {
            Trilean::Unknown
        }
    }

    /// One propagation pass: when one side is a singleton, remove that value
    /// from the other side (bounds only).
    pub open spec fn apply_spec(self, doms: Seq<Interval>) -> (Seq<Interval>, bool) {
        let xd = self.x.read_spec(doms);
        let yd = self.y.read_spec(doms);
        if xd.is_singleton_spec() {
            let ny = yd.remove_spec(xd.lo as int);
            if ny.is_empty_spec() {
                (doms, false)
            } else {
                (self.y.write_spec(doms, ny), true)
            }
        } else if yd.is_singleton_spec() {
            let nx = xd.remove_spec(yd.lo as int);
            if nx.is_empty_spec() {
                (doms, false)
            } else {
                (self.x.write_spec(doms, nx), true)
            }
        } else {
            (doms, true)
        }
    }

    pub fn new(x: Term, y: Term) -> (r: XNeqY)
        ensures
            r == (XNeqY { x, y }),
    {
        XNeqY { x, y }
    }

    pub fn is_subsumed(&self, store: &VStore) -> (r: Trilean)
        requires
            store.wf(),
            self.wf(),
            self.bound_spec(store.doms_spec().len() as int),
        ensures
            r == self.subsumed_spec(store.doms_spec()),
    {
        let xd = self.x.read(store);
        let yd = self.y.read(store);
        if xd.is_disjoint(&yd) {
            Trilean::True
        } else if xd.is_singleton() && yd.is_singleton() && xd.lower() == yd.lower() {
            Trilean::False
        } else {
            Trilean::Unknown
        }
    }

    pub fn propagate(&self, store: &mut VStore) -> (r: bool)
        requires
            old(store).wf(),
            self.wf(),
            self.bound_spec(old(store).doms_spec().len() as int),
        ensures
            final(store).wf(),
            evolves(*old(store), *final(store)),
            final(store).doms_spec() == self.apply_spec(old(store).doms_spec()).0,
            r == self.apply_spec(old(store).doms_spec()).1,
    {
        let xd = self.x.read(store);
        let yd = self.y.read(store);
        if xd.is_singleton() {
            let ny = yd.remove(xd.lower());
            self.y.update(store, ny)
        } else if yd.is_singleton() {
            let nx = xd.remove(yd.lower());
            self.x.update(store, nx)
        } else {
            true
        }
    }

    /// Bound events on either side can change the subsumption status.
    pub fn dependencies(&self) -> (r: Vec<(usize, FDEvent)>)
        ensures
            forall|i: int|
                0 <= i < r@.len() ==> self.vars_spec().contains((#[trigger] r@[i]).0 as int)
                    && r@[i].1.rank() <= FDEvent::Bound.rank(),
            forall|v: int|
                self.vars_spec().contains(v) ==> exists|i: int|
                    0 <= i < r@.len() && (#[trigger] r@[i]).0 as int == v,
    {
        deps_of_two_terms(self.x, self.y)
    }
}

/// Bound-level dependencies of a propagator over two terms.
fn deps_of_two_terms(x: Term, y: Term) -> (r: Vec<(usize, FDEvent)>)
    ensures
        forall|i: int|
            0 <= i < r@.len() ==> x.deps_spec().union(y.deps_spec()).contains(
                (#[trigger] r@[i]).0 as int,
            ) && r@[i].1.rank() <= FDEvent::Bound.rank(),
        forall|v: int|
            x.deps_spec().union(y.deps_spec()).contains(v) ==> exists|i: int|
                0 <= i < r@.len() && (#[trigger] r@[i]).0 as int == v,
{
    let mut r = x.dependencies(FDEvent::Bound);
    let dy = y.dependencies(FDEvent::Bound);
    let ghost rx = r@;
    proof {
        assert(r@ =~= rx + dy@.subrange(0, 0));
    }
    let mut j: usize = 0;
    while j < dy.len()
        invariant
            j <= dy@.len(),
            r@ == rx + dy@.subrange(0, j as int),
            forall|i: int|
                0 <= i < rx.len() ==> x.deps_spec().contains((#[trigger] rx[i]).0 as int)
                    && rx[i].1 == FDEvent::Bound,
            forall|i: int|
                0 <= i < dy@.len() ==> y.deps_spec().contains((#[trigger] dy@[i]).0 as int)
                    && dy@[i].1 == FDEvent::Bound,
        decreases dy@.len() - j,
    {
        let e = dy[j];
        r.push(e);
        proof {
            assert(dy@.subrange(0, j as int + 1) =~= dy@.subrange(0, j as int).push(dy@[j as int]));
            assert(r@ =~= rx + dy@.subrange(0, j as int + 1));
        }
        j += 1;
    }
    proof {
        assert(r@ =~= rx + dy@);
        assert forall|v: int|
            x.deps_spec().union(y.deps_spec()).contains(v) implies exists|i: int|
            0 <= i < r@.len() && (#[trigger] r@[i]).0 as int == v by {
            if x.deps_spec().contains(v) {
                let i = choose|i: int| 0 <= i < rx.len() && (#[trigger] rx[i]).0 as int == v;
                assert(r@[i].0 as int == v);
            } else {
                let i = choose|i: int| 0 <= i < dy@.len() && (#[trigger] dy@[i]).0 as int == v;
                assert(r@[rx.len() + i].0 as int == v);
            }
        }
    }
    r
}

/// The pairwise disequality between variables `a` and `b` of `vars`.
pub open spec fn pair_of(vars: Seq<Term>, a: int, b: int) -> XNeqY {
    XNeqY { x: vars[a], y: vars[b] }
}

/// `p` is the disequality of some pair `a < b` of `vars`.
pub open spec fn is_some_pair(p: XNeqY, vars: Seq<Term>) -> bool {
    exists|a: int, b: int| 0 <= a < b < vars.len() && p == #[trigger] pair_of(vars, a, b)
}

/// The pair `a < b` of `vars` has its disequality among `props`.
pub open spec fn covers_pair(props: Seq<XNeqY>, vars: Seq<Term>, a: int, b: int) -> bool {
    exists|k: int| 0 <= k < props.len() && #[trigger] props[k] == pair_of(vars, a, b)
}

/// The disequalities of row `i`: `(i, j)` for `j` from `j0` up to the end.
pub open spec fn row_pairs(vars: Seq<Term>, i: int, j0: int) -> Seq<XNeqY>
    decreases vars.len() - j0,
{
    if j0 < i + 1 || j0 >= vars.len() {
        Seq::empty()
    } else {
        seq![pair_of(vars, i, j0)] + row_pairs(vars, i, j0 + 1)
    }
}

/// The pairwise disequalities of rows `i` and up, in row order.
pub open spec fn pairs_from(vars: Seq<Term>, i: int) -> Seq<XNeqY>
    decreases vars.len() - i,
{
    if i < 0 || i >= vars.len() - 1 {
        Seq::empty()
    } else {
        row_pairs(vars, i, i + 1) + pairs_from(vars, i + 1)
    }
}

/// All pairwise disequalities in row order: (0,1), (0,2), ..., (n-2,n-1).
pub open spec fn all_pairs(vars: Seq<Term>) -> Seq<XNeqY> {
    pairs_from(vars, 0)
}

/// A row of pairs has one entry per partner above the diagonal.
proof fn lemma_row_pairs_len(vars: Seq<Term>, i: int, j0: int)
    requires
        0 <= i,
        i + 1 <= j0,
    ensures
        row_pairs(vars, i, j0).len() == if j0 <= vars.len() {
            vars.len() - j0
        } else {
            0
        },
    decreases vars.len() - j0,
{
    if j0 < vars.len() {
        lemma_row_pairs_len(vars, i, j0 + 1);
    }
}

proof fn lemma_pairs_from_len(vars: Seq<Term>, i: int)
    requires
        0 <= i <= vars.len(),
    ensures
        2 * pairs_from(vars, i).len() == (vars.len() - i) * (vars.len() - i - 1),
    decreases vars.len() - i,
{
    let n = vars.len() as int;
    if i < vars.len() - 1 {
        lemma_row_pairs_len(vars, i, i + 1);
        lemma_pairs_from_len(vars, i + 1);
        assert(row_pairs(vars, i, i + 1).len() == n - i - 1);
        assert(2 * pairs_from(vars, i + 1).len() == (n - i - 1) * (n - i - 2));
        assert(pairs_from(vars, i).len() == n - i - 1 + pairs_from(vars, i + 1).len());
        assert(2 * (n - i - 1) + (n - i - 1) * (n - i - 2) == (n - i) * (n - i - 1)) by (nonlinear_arith);
    } else {
        assert(pairs_from(vars, i).len() == 0);
        assert((n - i) * (n - i - 1) == 0) by (nonlinear_arith)
            requires
                n - 1 <= i <= n,
        ;
    }
}

/// A `distinct` over `n` variables holds `n(n-1)/2` pairwise
/// disequalities: one for each unordered pair.
pub proof fn lemma_all_pairs_len(vars: Seq<Term>)
    ensures
        2 * all_pairs(vars).len() == vars.len() * (vars.len() - 1),
{
    lemma_pairs_from_len(vars, 0);
}

/// Sequential application of the pairwise propagators of a `Distinct`,
/// starting at index `k`; stops early (keeping prior writes) on failure.
pub open spec fn distinct_apply_from(props: Seq<XNeqY>, doms: Seq<Interval>, k: int) -> (
    Seq<Interval>,
    bool,
)
    decreases props.len() - k,
{
    if k < 0 || k >= props.len() {
        (doms, true)
    } else {
        let step = props[k].apply_spec(doms);
        if !step.1 {
            (step.0, false)
        } else {
            distinct_apply_from(props, step.0, k + 1)
        }
    }
}

/// The dependency list of a `distinct`: one `(id, Inner)` entry per
/// variable term, in variable order.
pub open spec fn inner_deps(vars: Seq<Term>, i: int) -> Seq<(usize, FDEvent)>
    decreases vars.len() - i,
{
    if i < 0 || i >= vars.len() {
        Seq::empty()
    } else {
        (match vars[i] {
            Term::Var { id, offset } => seq![(id, FDEvent::Inner)],
            Term::Constant { value } => Seq::empty(),
        }) + inner_deps(vars, i + 1)
    }
}

/// Every variable the term depends on has an entry.
pub open spec fn term_covered(entries: Seq<(usize, FDEvent)>, t: Term) -> bool {
    forall|v: int|
        #[trigger] t.deps_spec().contains(v) ==> exists|i: int|
            0 <= i < entries.len() && (#[trigger] entries[i]).0 as int == v
}

/// The `distinct` constraint: all variables pairwise different, held as the
/// pairwise `x != y` propagators it is the conjunction of.
#[derive(Clone, Debug)]
pub struct Distinct {
    pub props: Rc<Vec<XNeqY>>,
    pub vars: Rc<Vec<Term>>,
}

impl Distinct {
    pub open spec fn wf(self) -> bool {
        &&& forall|k: int| 0 <= k < self.props@.len() ==> (#[trigger] self.props@[k]).wf()
        &&& forall|k: int|
            0 <= k < self.props@.len() ==> is_some_pair(#[trigger] self.props@[k], self.vars@)
    }

    pub open spec fn bound_spec(self, n: int) -> bool {
        forall|k: int| 0 <= k < self.props@.len() ==> (#[trigger] self.props@[k]).bound_spec(n)
    }

    pub open spec fn vars_spec(self) -> Set<int> {
        Set::new(
            |v: int|
                exists|k: int|
                    0 <= k < self.props@.len() && (#[trigger] self.props@[k]).vars_spec().contains(
                        v,
                    ),
        )
    }

    /// Conjunction of the meanings of the pairwise disequalities.
    pub open spec fn sem(self, asn: Seq<int>) -> bool {
        forall|k: int| 0 <= k < self.props@.len() ==> (#[trigger] self.props@[k]).sem(asn)
    }

    /// Entailed when every pair is, violated when some pair is.
    pub open spec fn subsumed_spec(self, doms: Seq<Interval>) -> Trilean {
        if exists|k: int|
            0 <= k < self.props@.len() && (#[trigger] self.props@[k]).subsumed_spec(doms)
                == Trilean::False {
            Trilean::False
        } else if forall|k: int|
            0 <= k < self.props@.len() ==> (#[trigger] self.props@[k]).subsumed_spec(doms)
                == Trilean::True {
            Trilean::True
        } else {
            Trilean::Unknown
        }
    }

    pub open spec fn apply_spec(self, doms: Seq<Interval>) -> (Seq<Interval>, bool) {
        distinct_apply_from(self.props@, doms, 0)
    }

    /// Build the constraint over the given variables: one `x != y` for each
    /// pair `i < j`, in row order.
    pub fn new(vars: Vec<Term>) -> (r: Distinct)
        requires
            vars@.len() >= 1,
            forall|i: int| 0 <= i < vars@.len() ==> (#[trigger] vars@[i]).wf(),
        ensures
            r.vars@ == vars@,
            r.wf(),
            r.props@ == all_pairs(vars@),
            forall|a: int, b: int|
                0 <= a < b < vars@.len() ==> #[trigger] covers_pair(r.props@, vars@, a, b),
            forall|k: int| 0 <= k < r.props@.len() ==> is_some_pair(#[trigger] r.props@[k], vars@),
    {
        let n = vars.len();
        let mut props: Vec<XNeqY> = Vec::new();
        let mut i: usize = 0;
        while i < n - 1
            invariant
                n == vars@.len(),
                n >= 1,
                i <= n - 1,
                props@ + pairs_from(vars@, i as int) == all_pairs(vars@),
                forall|a: int, b: int|
                    0 <= a < b < n && a < i ==> #[trigger] covers_pair(props@, vars@, a, b),
                forall|k: int| 0 <= k < props@.len() ==> is_some_pair(#[trigger] props@[k], vars@),
            decreases n - i,
        {
            proof {
                assert(pairs_from(vars@, i as int) == row_pairs(vars@, i as int, i as int + 1)
                    + pairs_from(vars@, i as int + 1));
                assert(props@ + (row_pairs(vars@, i as int, i as int + 1) + pairs_from(
                    vars@,
                    i as int + 1,
                )) =~= (props@ + row_pairs(vars@, i as int, i as int + 1)) + pairs_from(
                    vars@,
                    i as int + 1,
                ));
            }
            let mut j: usize = i + 1;
            while j < n
                invariant
                    n == vars@.len(),
                    i < n - 1,
                    i + 1 <= j <= n,
                    (props@ + row_pairs(vars@, i as int, j as int)) + pairs_from(
                        vars@,
                        i as int + 1,
                    ) == all_pairs(vars@),
                    forall|a: int, b: int|
                        0 <= a < b < n && a < i ==> #[trigger] covers_pair(props@, vars@, a, b),
                    forall|b: int|
                        i < b < j ==> #[trigger] covers_pair(props@, vars@, i as int, b),
                    forall|k: int|
                        0 <= k < props@.len() ==> is_some_pair(#[trigger] props@[k], vars@),
                decreases n - j,
            {
                let ghost prev = props@;
                props.push(XNeqY::new(vars[i], vars[j]));
                proof {
                    assert(props@[prev.len() as int] == pair_of(vars@, i as int, j as int));
                    assert(row_pairs(vars@, i as int, j as int) == seq![
                        pair_of(vars@, i as int, j as int),
                    ] + row_pairs(vars@, i as int, j as int + 1));
                    assert((props@ + row_pairs(vars@, i as int, j as int + 1)) =~= (prev
                        + row_pairs(vars@, i as int, j as int)));
                    assert forall|a: int, b: int|
                        0 <= a < b < n && a < i implies #[trigger] covers_pair(
                        props@,
                        vars@,
                        a,
                        b,
                    ) by {
                        assert(covers_pair(prev, vars@, a, b));
                        let k = choose|k: int|
                            0 <= k < prev.len() && #[trigger] prev[k] == pair_of(vars@, a, b);
                        assert(props@[k] == prev[k]);
                        assert(props@[k] == pair_of(vars@, a, b));
                    }
                    assert forall|b: int| i < b < j + 1 implies #[trigger] covers_pair(
                        props@,
                        vars@,
                        i as int,
                        b,
                    ) by {
                        if b < j {
                            assert(covers_pair(prev, vars@, i as int, b));
                            let k = choose|k: int|
                                0 <= k < prev.len() && #[trigger] prev[k] == pair_of(
                                    vars@,
                                    i as int,
                                    b,
                                );
                            assert(props@[k] == prev[k]);
                            assert(props@[k] == pair_of(vars@, i as int, b));
                        } else {
                            assert(props@[prev.len() as int] == pair_of(vars@, i as int, b));
                        }
                    }
                    assert forall|k: int| 0 <= k < props@.len() implies is_some_pair(
                        #[trigger] props@[k],
                        vars@,
                    ) by {
                        if k < prev.len() {
                            assert(props@[k] == prev[k]);
                            assert(is_some_pair(prev[k], vars@));
                        } else {
                            assert(props@[k] == pair_of(vars@, i as int, j as int));
                        }
                    }
                }
                j += 1;
            }
            proof {
                assert(row_pairs(vars@, i as int, n as int) == Seq::<XNeqY>::empty());
                assert(props@ + row_pairs(vars@, i as int, n as int) =~= props@);
            }
            i += 1;
        }
        proof {
            assert(pairs_from(vars@, n as int - 1) == Seq::<XNeqY>::empty());
            assert(props@ + pairs_from(vars@, n as int - 1) =~= props@);
        }
        let r = Distinct { props: Rc::new(props), vars: Rc::new(vars) };
        proof {
            assert forall|k: int| 0 <= k < r.props@.len() implies (#[trigger] r.props@[k]).wf() by {
                assert(is_some_pair(r.props@[k], r.vars@));
                let (a, b) = choose|a: int, b: int|
                    0 <= a < b < r.vars@.len() && r.props@[k] == #[trigger] pair_of(r.vars@, a, b);
                assert(r.vars@[a].wf());
                assert(r.vars@[b].wf());
            }
        }
        r
    }

    pub fn is_subsumed(&self, store: &VStore) -> (r: Trilean)
        requires
            store.wf(),
            self.wf(),
            self.bound_spec(store.doms_spec().len() as int),
        ensures
            r == self.subsumed_spec(store.doms_spec()),
    {
        let mut all_entailed = true;
        let n = self.props.len();
        let mut k: usize = 0;
        while k < n
            invariant
                store.wf(),
                self.wf(),
                self.bound_spec(store.doms_spec().len() as int),
                n == self.props@.len(),
                k <= n,
                forall|j: int|
                    0 <= j < k ==> (#[trigger] self.props@[j]).subsumed_spec(store.doms_spec())
                        != Trilean::False,
                all_entailed == (forall|j: int|
                    0 <= j < k ==> (#[trigger] self.props@[j]).subsumed_spec(store.doms_spec())
                        == Trilean::True),
            decreases n - k,
        {
            let p = self.props[k];
            match p.is_subsumed(store) {
                Trilean::False => {
                    return Trilean::False;
                },
                Trilean::Unknown => {
                    all_entailed = false;
                },
                Trilean::True => {},
            }
            k += 1;
        }
        if all_entailed {
            Trilean::True
        } else {
            Trilean::Unknown
        }
    }

    pub fn propagate(&self, store: &mut VStore) -> (r: bool)
        requires
            old(store).wf(),
            self.wf(),
            self.bound_spec(old(store).doms_spec().len() as int),
        ensures
            final(store).wf(),
            evolves(*old(store), *final(store)),
            final(store).doms_spec() == self.apply_spec(old(store).doms_spec()).0,
            r == self.apply_spec(old(store).doms_spec()).1,
    {
        let n = self.props.len();
        let mut k: usize = 0;
        while k < n
            invariant
                store.wf(),
                self.wf(),
                n == self.props@.len(),
                k <= n,
                store.doms_spec().len() == old(store).doms_spec().len(),
                self.bound_spec(store.doms_spec().len() as int),
                evolves(*old(store), *store),
                distinct_apply_from(self.props@, old(store).doms_spec(), 0)
                    == distinct_apply_from(self.props@, store.doms_spec(), k as int),
            decreases n - k,
        {
            let ghost pre = *store;
            let p = self.props[k];
            let ok = p.propagate(store);
            proof {
                lemma_evolves_trans(*old(store), pre, *store);
                assert(distinct_apply_from(self.props@, pre.doms_spec(), k as int) == (
                if !p.apply_spec(pre.doms_spec()).1 {
                    (p.apply_spec(pre.doms_spec()).0, false)
                } else {
                    distinct_apply_from(self.props@, p.apply_spec(pre.doms_spec()).0, k as int + 1)
                }));
            }
            if !ok {
                return false;
            }
            k += 1;
        }
        true
    }

    /// Any change (`Inner` and up) of any involved variable can matter:
    /// the dependencies are one `Inner` entry per variable, in order.
    pub fn dependencies(&self) -> (r: Vec<(usize, FDEvent)>)
        requires
            self.wf(),
        ensures
            r@ == inner_deps(self.vars@, 0),
            forall|i: int| 0 <= i < r@.len() ==> (#[trigger] r@[i]).1 == FDEvent::Inner,
            forall|v: int|
                self.vars_spec().contains(v) ==> exists|i: int|
                    0 <= i < r@.len() && (#[trigger] r@[i]).0 as int == v,
    {
        let mut r: Vec<(usize, FDEvent)> = Vec::new();
        let n = self.vars.len();
        let mut k: usize = 0;
        while k < n
            invariant
                n == self.vars@.len(),
                k <= n,
                r@ + inner_deps(self.vars@, k as int) == inner_deps(self.vars@, 0),
                forall|i: int| 0 <= i < r@.len() ==> (#[trigger] r@[i]).1 == FDEvent::Inner,
                forall|idx: int| 0 <= idx < k ==> term_covered(r@, #[trigger] self.vars@[idx]),
            decreases n - k,
        {
            let ghost prev = r@;
            let t = self.vars[k];
            match t {
                Term::Var { id, offset } => {
                    r.push((id, FDEvent::Inner));
                    proof {
                        assert(inner_deps(self.vars@, k as int) == seq![(id, FDEvent::Inner)]
                            + inner_deps(self.vars@, k as int + 1));
                        assert(r@ + inner_deps(self.vars@, k as int + 1) =~= prev + inner_deps(
                            self.vars@,
                            k as int,
                        ));
                        assert(r@[prev.len() as int] == (id, FDEvent::Inner));
                        assert forall|idx: int| 0 <= idx < k + 1 implies term_covered(
                            r@,
                            #[trigger] self.vars@[idx],
                        ) by {
                            assert forall|v: int|
                                #[trigger] self.vars@[idx].deps_spec().contains(
                                v,
                            ) implies exists|i: int|
                                0 <= i < r@.len() && (#[trigger] r@[i]).0 as int == v by {
                                if idx < k {
                                    assert(term_covered(prev, self.vars@[idx]));
                                    let i = choose|i: int|
                                        0 <= i < prev.len() && (#[trigger] prev[i]).0 as int == v;
                                    assert(r@[i] == prev[i]);
                                } else {
                                    assert(v == id as int);
                                    assert(r@[prev.len() as int].0 as int == v);
                                }
                            }
                        }
                    }
                },
                Term::Constant { value } => {
                    proof {
                        assert(inner_deps(self.vars@, k as int) == Seq::<(usize, FDEvent)>::empty()
                            + inner_deps(self.vars@, k as int + 1));
                        assert(r@ + inner_deps(self.vars@, k as int + 1) =~= prev + inner_deps(
                            self.vars@,
                            k as int,
                        ));
                        assert forall|idx: int| 0 <= idx < k + 1 implies term_covered(
                            r@,
                            #[trigger] self.vars@[idx],
                        ) by {
                            if idx < k {
                                assert(term_covered(prev, self.vars@[idx]));
                            }
                        }
                    }
                },
            }
            k += 1;
        }
        proof {
            assert(inner_deps(self.vars@, n as int) == Seq::<(usize, FDEvent)>::empty());
            assert(r@ + inner_deps(self.vars@, n as int) =~= r@);
            assert forall|v: int| self.vars_spec().contains(v) implies exists|i: int|
                0 <= i < r@.len() && (#[trigger] r@[i]).0 as int == v by {
                let j = choose|j: int|
                    0 <= j < self.props@.len() && (#[trigger] self.props@[j]).vars_spec().contains(
                        v,
                    );
                assert(is_some_pair(self.props@[j], self.vars@));
                let (a, b) = choose|a: int, b: int|
                    0 <= a < b < self.vars@.len() && self.props@[j] == #[trigger] pair_of(
                        self.vars@,
                        a,
                        b,
                    );
                assert(self.props@[j].x == self.vars@[a]);
                assert(self.props@[j].y == self.vars@[b]);
                if self.props@[j].x.deps_spec().contains(v) {
                    assert(term_covered(r@, self.vars@[a]));
                } else {
                    assert(self.props@[j].y.deps_spec().contains(v));
                    assert(term_covered(r@, self.vars@[b]));
                }
            }
        }
        r
    }
}



/// A propagator of the built-in set, as stored by the constraint store.
#[derive(Clone, Debug)]
pub enum Prop {
    LessEq(XLessEqY),
    Eq(XEqY),
    NotEq(XNeqY),
    Distinct(Distinct),
}

impl Prop {
    pub open spec fn wf(self) -> bool {
        match self {
            Prop::LessEq(p) => p.wf(),
            Prop::Eq(p) => p.wf(),
            Prop::NotEq(p) => p.wf(),
            Prop::Distinct(p) => p.wf(),
        }
    }

    pub open spec fn bound_spec(self, n: int) -> bool {
        match self {
            Prop::LessEq(p) => p.bound_spec(n),
            Prop::Eq(p) => p.bound_spec(n),
            Prop::NotEq(p) => p.bound_spec(n),
            Prop::Distinct(p) => p.bound_spec(n),
        }
    }

    pub open spec fn vars_spec(self) -> Set<int> {
        match self {
            Prop::LessEq(p) => p.vars_spec(),
            Prop::Eq(p) => p.vars_spec(),
            Prop::NotEq(p) => p.vars_spec(),
            Prop::Distinct(p) => p.vars_spec(),
        }
    }

    /// What the constraint means of a full assignment.
    pub open spec fn sem(self, asn: Seq<int>) -> bool {
        match self {
            Prop::LessEq(p) => p.sem(asn),
            Prop::Eq(p) => p.sem(asn),
            Prop::NotEq(p) => p.sem(asn),
            Prop::Distinct(p) => p.sem(asn),
        }
    }

    pub open spec fn subsumed_spec(self, doms: Seq<Interval>) -> Trilean {
        match self {
            Prop::LessEq(p) => p.subsumed_spec(doms),
            Prop::Eq(p) => p.subsumed_spec(doms),
            Prop::NotEq(p) => p.subsumed_spec(doms),
            Prop::Distinct(p) => p.subsumed_spec(doms),
        }
    }

    pub open spec fn apply_spec(self, doms: Seq<Interval>) -> (Seq<Interval>, bool) {
        match self {
            Prop::LessEq(p) => p.apply_spec(doms),
            Prop::Eq(p) => p.apply_spec(doms),
            Prop::NotEq(p) => p.apply_spec(doms),
            Prop::Distinct(p) => p.apply_spec(doms),
        }
    }

    pub fn is_subsumed(&self, store: &VStore) -> (r: Trilean)
        requires
            store.wf(),
            self.wf(),
            self.bound_spec(store.doms_spec().len() as int),
        ensures
            r == self.subsumed_spec(store.doms_spec()),
    {
        match self {
            Prop::LessEq(p) => p.is_subsumed(store),
            Prop::Eq(p) => p.is_subsumed(store),
            Prop::NotEq(p) => p.is_subsumed(store),
            Prop::Distinct(p) => p.is_subsumed(store),
        }
    }

    pub fn propagate(&self, store: &mut VStore) -> (r: bool)
        requires
            old(store).wf(),
            self.wf(),
            self.bound_spec(old(store).doms_spec().len() as int),
        ensures
            final(store).wf(),
            evolves(*old(store), *final(store)),
            final(store).doms_spec() == self.apply_spec(old(store).doms_spec()).0,
            r == self.apply_spec(old(store).doms_spec()).1,
    {
        match self {
            Prop::LessEq(p) => p.propagate(store),
            Prop::Eq(p) => p.propagate(store),
            Prop::NotEq(p) => p.propagate(store),
            Prop::Distinct(p) => p.propagate(store),
        }
    }

    pub fn dependencies(&self) -> (r: Vec<(usize, FDEvent)>)
        requires
            self.wf(),
        ensures
            forall|i: int|
                0 <= i < r@.len() ==> (#[trigger] r@[i]).1.rank() <= FDEvent::Bound.rank(),
            forall|v: int|
                self.vars_spec().contains(v) ==> exists|i: int|
                    0 <= i < r@.len() && (#[trigger] r@[i]).0 as int == v,
    {
        match self {
            Prop::LessEq(p) => p.dependencies(),
            Prop::Eq(p) => p.dependencies(),
            Prop::NotEq(p) => p.dependencies(),
            Prop::Distinct(p) => p.dependencies(),
        }
    }

    /// An exact copy, for snapshotting a constraint store.
    pub fn duplicate(&self) -> (r: Prop)
        ensures
            r == *self,
    {
        match self {
            Prop::LessEq(p) => Prop::LessEq(*p),
            Prop::Eq(p) => Prop::Eq(*p),
            Prop::NotEq(p) => Prop::NotEq(*p),
            Prop::Distinct(d) => {
                let c = Distinct {
                    props: crate::util::rc_dup(&d.props),
                    vars: crate::util::rc_dup(&d.vars),
                };
                proof {
                    assert(*d == (Distinct { props: d.props, vars: d.vars }));
                }
                Prop::Distinct(c)
            },
        }
    }
}

/// Once a pairwise disequality is decided, any further monotonic shrink of
/// the store leaves the decision in place.
pub proof fn lemma_neq_stable(p: XNeqY, d1: Seq<Interval>, d2: Seq<Interval>)
    requires
        p.wf(),
        p.bound_spec(d1.len() as int),
        crate::vstore::doms_wf(d1),
        crate::vstore::doms_wf(d2),
        crate::vstore::shrinks(d1, d2),
        crate::vstore::all_nonempty(d2),
        p.subsumed_spec(d1) != Trilean::Unknown,
    ensures
        p.subsumed_spec(d2) == p.subsumed_spec(d1),
{
    crate::term::lemma_read_shrink(p.x, d1, d2);
    crate::term::lemma_read_shrink(p.y, d1, d2);
}

/// Stability of a decided `x <= y`.
pub proof fn lemma_leq_stable(p: XLessEqY, d1: Seq<Interval>, d2: Seq<Interval>)
    requires
        p.wf(),
        p.bound_spec(d1.len() as int),
        crate::vstore::doms_wf(d1),
        crate::vstore::doms_wf(d2),
        crate::vstore::shrinks(d1, d2),
        crate::vstore::all_nonempty(d2),
        p.subsumed_spec(d1) != Trilean::Unknown,
    ensures
        p.subsumed_spec(d2) == p.subsumed_spec(d1),
{
    crate::term::lemma_read_shrink(p.x, d1, d2);
    crate::term::lemma_read_shrink(p.y, d1, d2);
}

/// Stability of a decided `x = y`.
pub proof fn lemma_eq_stable(p: XEqY, d1: Seq<Interval>, d2: Seq<Interval>)
    requires
        p.wf(),
        p.bound_spec(d1.len() as int),
        crate::vstore::doms_wf(d1),
        crate::vstore::doms_wf(d2),
        crate::vstore::shrinks(d1, d2),
        crate::vstore::all_nonempty(d2),
        p.subsumed_spec(d1) != Trilean::Unknown,
    ensures
        p.subsumed_spec(d2) == p.subsumed_spec(d1),
{
    crate::term::lemma_read_shrink(p.x, d1, d2);
    crate::term::lemma_read_shrink(p.y, d1, d2);
}

/// Subsumption stability: once a propagator's subsumption is decided
/// (`True` or `False`), any further monotonic shrink that keeps every
/// domain nonempty preserves the answer.
pub proof fn lemma_subsumed_stable(p: Prop, d1: Seq<Interval>, d2: Seq<Interval>)
    requires
        p.wf(),
        p.bound_spec(d1.len() as int),
        crate::vstore::doms_wf(d1),
        crate::vstore::doms_wf(d2),
        crate::vstore::shrinks(d1, d2),
        crate::vstore::all_nonempty(d2),
        p.subsumed_spec(d1) != Trilean::Unknown,
    ensures
        p.subsumed_spec(d2) == p.subsumed_spec(d1),
{
    match p {
        Prop::LessEq(q) => lemma_leq_stable(q, d1, d2),
        Prop::Eq(q) => lemma_eq_stable(q, d1, d2),
        Prop::NotEq(q) => lemma_neq_stable(q, d1, d2),
        Prop::Distinct(q) => {
            if q.subsumed_spec(d1) == Trilean::False {
                let k = choose|k: int|
                    0 <= k < q.props@.len() && (#[trigger] q.props@[k]).subsumed_spec(d1)
                        == Trilean::False;
                lemma_neq_stable(q.props@[k], d1, d2);
                assert(q.props@[k].subsumed_spec(d2) == Trilean::False);
            } else {
                assert(q.subsumed_spec(d1) == Trilean::True);
                assert forall|k: int|
                    0 <= k < q.props@.len() implies (#[trigger] q.props@[k]).subsumed_spec(d2)
                    == Trilean::True by {
                    assert(q.props@[k].subsumed_spec(d1) == Trilean::True);
                    lemma_neq_stable(q.props@[k], d1, d2);
                }
                assert(!exists|k: int|
                    0 <= k < q.props@.len() && (#[trigger] q.props@[k]).subsumed_spec(d2)
                        == Trilean::False);
            }
        },
    }
}

/// A pairwise disequality entailed by the store holds of every assignment
/// within the store.
pub proof fn lemma_neq_true_sem(p: XNeqY, doms: Seq<Interval>, asn: Seq<int>)
    requires
        p.wf(),
        p.bound_spec(doms.len() as int),
        crate::vstore::doms_wf(doms),
        asn.len() == doms.len(),
        forall|i: int| 0 <= i < doms.len() ==> (#[trigger] doms[i]).contains_spec(asn[i]),
        p.subsumed_spec(doms) == Trilean::True,
    ensures
        p.sem(asn),
{
    crate::term::lemma_val_in_read(p.x, doms, asn);
    crate::term::lemma_val_in_read(p.y, doms, asn);
}

/// Soundness of entailment: a propagator whose subsumption is `True` is
/// satisfied by every assignment that picks a value inside each domain.
pub proof fn lemma_subsumed_true_sem(p: Prop, doms: Seq<Interval>, asn: Seq<int>)
    requires
        p.wf(),
        p.bound_spec(doms.len() as int),
        crate::vstore::doms_wf(doms),
        asn.len() == doms.len(),
        forall|i: int| 0 <= i < doms.len() ==> (#[trigger] doms[i]).contains_spec(asn[i]),
        p.subsumed_spec(doms) == Trilean::True,
    ensures
        p.sem(asn),
{
    match p {
        Prop::LessEq(q) => {
            crate::term::lemma_val_in_read(q.x, doms, asn);
            crate::term::lemma_val_in_read(q.y, doms, asn);
        },
        Prop::Eq(q) => {
            crate::term::lemma_val_in_read(q.x, doms, asn);
            crate::term::lemma_val_in_read(q.y, doms, asn);
        },
        Prop::NotEq(q) => lemma_neq_true_sem(q, doms, asn),
        Prop::Distinct(q) => {
            assert forall|k: int| 0 <= k < q.props@.len() implies (#[trigger] q.props@[k]).sem(
                asn,
            ) by {
                assert(q.props@[k].subsumed_spec(doms) == Trilean::True);
                lemma_neq_true_sem(q.props@[k], doms, asn);
            }
        },
    }
}


/// One propagation pass leaves the store exactly as it is and succeeds.
pub open spec fn prop_stable(p: Prop, doms: Seq<Interval>) -> bool {
    p.apply_spec(doms) == (doms, true)
}

/// Domains that agree on every variable of the propagator.
pub open spec fn agree_on(p: Prop, d1: Seq<Interval>, d2: Seq<Interval>) -> bool {
    d1.len() == d2.len() && forall|v: int| #[trigger] p.vars_spec().contains(v) ==> d1[v] == d2[v]
}

/// A pairwise disequality that is stable on `d1` is stable on any store of
/// the same shape that agrees with `d1` on its variables.
proof fn lemma_neq_stable_frame(q: XNeqY, d1: Seq<Interval>, d2: Seq<Interval>, p: Prop)
    requires
        p == Prop::NotEq(q),
        q.wf(),
        q.bound_spec(d1.len() as int),
        crate::vstore::doms_wf(d1),
        crate::vstore::doms_wf(d2),
        agree_on(p, d1, d2),
        q.apply_spec(d1) == (d1, true),
    ensures
        q.apply_spec(d2) == (d2, true),
{
    if let Term::Var { id, offset } = q.x {
        assert(q.x.deps_spec().contains(id as int));
        assert(p.vars_spec().contains(id as int));
        assert(d1[id as int] == d2[id as int]);
    }
    if let Term::Var { id, offset } = q.y {
        assert(q.y.deps_spec().contains(id as int));
        assert(p.vars_spec().contains(id as int));
        assert(d1[id as int] == d2[id as int]);
    }
    assert(q.x.read_spec(d1) == q.x.read_spec(d2));
    assert(q.y.read_spec(d1) == q.y.read_spec(d2));
    let xd = q.x.read_spec(d1);
    let yd = q.y.read_spec(d1);
    if xd.is_singleton_spec() {
        let ny = yd.remove_spec(xd.lo as int);
        assert(!ny.is_empty_spec());
        assert(q.y.write_spec(d1, ny) == d1);
        if let Term::Var { id, offset } = q.y {
            let shifted = Interval {
                lo: (ny.lo - offset) as i64,
                hi: (ny.hi - offset) as i64,
            };
            assert(d1.update(id as int, shifted) == d1);
            assert(d1.update(id as int, shifted)[id as int] == shifted);
            assert(d2[id as int] == shifted);
            assert(q.y.write_spec(d2, ny) =~= d2);
        }
        assert(q.apply_spec(d2) == (d2, true));
    } else if yd.is_singleton_spec() {
        let nx = xd.remove_spec(yd.lo as int);
        assert(!nx.is_empty_spec());
        assert(q.x.write_spec(d1, nx) == d1);
        if let Term::Var { id, offset } = q.x {
            let shifted = Interval {
                lo: (nx.lo - offset) as i64,
                hi: (nx.hi - offset) as i64,
            };
            assert(d1.update(id as int, shifted) == d1);
            assert(d1.update(id as int, shifted)[id as int] == shifted);
            assert(d2[id as int] == shifted);
            assert(q.x.write_spec(d2, nx) =~= d2);
        }
        assert(q.apply_spec(d2) == (d2, true));
    } else {
        assert(q.apply_spec(d2) == (d2, true));
    }
}

/// Each pass of a pairwise disequality only shrinks domains.
proof fn lemma_neq_apply_shrinks(q: XNeqY, doms: Seq<Interval>)
    requires
        q.wf(),
        q.bound_spec(doms.len() as int),
        crate::vstore::doms_wf(doms),
    ensures
        crate::vstore::shrinks(doms, q.apply_spec(doms).0),
        crate::vstore::doms_wf(q.apply_spec(doms).0),
{
    let xd = q.x.read_spec(doms);
    let yd = q.y.read_spec(doms);
    if let Term::Var { id, offset } = q.x {
        assert(q.x.deps_spec().contains(id as int));
        assert(doms[id as int].wf());
    }
    if let Term::Var { id, offset } = q.y {
        assert(q.y.deps_spec().contains(id as int));
        assert(doms[id as int].wf());
    }
    let r = q.apply_spec(doms).0;
    assert forall|i: int| 0 <= i < doms.len() implies (#[trigger] r[i]).subset_spec(doms[i]) by {
        if r[i] != doms[i] {
        }
    }
    assert forall|i: int| 0 <= i < r.len() implies (#[trigger] r[i]).wf() by {
        if r[i] == doms[i] {
            assert(doms[i].wf());
        } else {
            assert(r[i].subset_spec(doms[i]));
            assert(!r[i].is_empty_spec());
            assert(doms[i].wf());
        }
    }
}

/// Stability of a whole tail of the pairwise fold is inherited by every
/// step of it, and transfers to agreeing stores.
proof fn lemma_distinct_stable_frame_from(
    q: Distinct,
    d1: Seq<Interval>,
    d2: Seq<Interval>,
    p: Prop,
    k: int,
)
    requires
        p == Prop::Distinct(q),
        q.wf(),
        q.bound_spec(d1.len() as int),
        crate::vstore::doms_wf(d1),
        crate::vstore::doms_wf(d2),
        crate::vstore::all_nonempty(d1),
        agree_on(p, d1, d2),
        0 <= k,
        distinct_apply_from(q.props@, d1, k) == (d1, true),
    ensures
        distinct_apply_from(q.props@, d2, k) == (d2, true),
    decreases q.props@.len() - k,
{
    if k < q.props@.len() {
        let pair = q.props@[k];
        assert(pair.wf());
        assert(pair.bound_spec(d1.len() as int));
        let step1 = pair.apply_spec(d1);
        assert(step1.1);
        lemma_neq_apply_shrinks(pair, d1);
        assert(crate::vstore::doms_wf(step1.0));
        // The fold returns to d1, so the step itself cannot have moved.
        assert(distinct_apply_from(q.props@, step1.0, k + 1) == (d1, true));
        lemma_distinct_from_shrinks(q, step1.0, k + 1);
        assert(crate::vstore::shrinks(step1.0, d1));
        assert forall|i: int| 0 <= i < d1.len() implies #[trigger] step1.0[i] == d1[i] by {
            assert(step1.0[i].subset_spec(d1[i]));
            assert(d1[i].subset_spec(step1.0[i]));
            assert(!d1[i].is_empty_spec());
        }
        assert(step1.0 =~= d1);
        assert(pair.apply_spec(d1) == (d1, true));
        // Transfer this step to d2, then recurse on the tail.
        assert forall|v: int| #[trigger] pair.vars_spec().contains(v) implies p.vars_spec().contains(
            v,
        ) && d1[v] == d2[v] by {
            assert(0 <= k < q.props@.len());
            assert(q.props@[k].vars_spec().contains(v));
            assert(exists|k2: int|
                0 <= k2 < q.props@.len() && (#[trigger] q.props@[k2]).vars_spec().contains(v));
            assert(q.vars_spec().contains(v));
            assert(p.vars_spec().contains(v));
        }
        let pp = Prop::NotEq(pair);
        assert(agree_on(pp, d1, d2));
        lemma_neq_stable_frame(pair, d1, d2, pp);
        assert(pair.apply_spec(d2) == (d2, true));
        lemma_distinct_stable_frame_from(q, d1, d2, p, k + 1);
    }
}

/// The pairwise fold only shrinks domains.
proof fn lemma_distinct_from_shrinks(q: Distinct, doms: Seq<Interval>, k: int)
    requires
        q.wf(),
        q.bound_spec(doms.len() as int),
        crate::vstore::doms_wf(doms),
        0 <= k,
    ensures
        crate::vstore::shrinks(doms, distinct_apply_from(q.props@, doms, k).0),
        crate::vstore::doms_wf(distinct_apply_from(q.props@, doms, k).0),
    decreases q.props@.len() - k,
{
    if k < q.props@.len() {
        let pair = q.props@[k];
        assert(pair.wf());
        assert(pair.bound_spec(doms.len() as int));
        lemma_neq_apply_shrinks(pair, doms);
        let step = pair.apply_spec(doms);
        assert(crate::vstore::doms_wf(step.0));
        if step.1 {
            assert(pair.bound_spec(step.0.len() as int));
            lemma_distinct_from_shrinks(q, step.0, k + 1);
            let rest = distinct_apply_from(q.props@, step.0, k + 1);
            assert forall|i: int|
                0 <= i < doms.len() implies (#[trigger] rest.0[i]).subset_spec(doms[i]) by {
                assert(rest.0[i].subset_spec(step.0[i]));
                assert(step.0[i].subset_spec(doms[i]));
            }
        }
    }
}

/// A stable propagator of any kind stays stable on an agreeing store.
pub proof fn lemma_stable_frame(p: Prop, d1: Seq<Interval>, d2: Seq<Interval>)
    requires
        p.wf(),
        p.bound_spec(d1.len() as int),
        crate::vstore::doms_wf(d1),
        crate::vstore::doms_wf(d2),
        crate::vstore::all_nonempty(d1),
        agree_on(p, d1, d2),
        prop_stable(p, d1),
    ensures
        prop_stable(p, d2),
{
    match p {
        Prop::LessEq(q) => {
            if let Term::Var { id, offset } = q.x {
                assert(q.x.deps_spec().contains(id as int));
                assert(p.vars_spec().contains(id as int));
                assert(d1[id as int] == d2[id as int]);
            }
            if let Term::Var { id, offset } = q.y {
                assert(q.y.deps_spec().contains(id as int));
                assert(p.vars_spec().contains(id as int));
                assert(d1[id as int] == d2[id as int]);
            }
            assert(q.x.read_spec(d1) == q.x.read_spec(d2));
            assert(q.y.read_spec(d1) == q.y.read_spec(d2));
            let xd = q.x.read_spec(d1);
            let yd = q.y.read_spec(d1);
            let nx = Interval { lo: xd.lo, hi: if xd.hi <= yd.hi { xd.hi } else { yd.hi } };
            assert(!nx.is_empty_spec());
            assert(q.x.write_spec(d1, nx) == d1);
            if let Term::Var { id, offset } = q.x {
                let shifted = Interval {
                    lo: (nx.lo - offset) as i64,
                    hi: (nx.hi - offset) as i64,
                };
                assert(d1.update(id as int, shifted) == d1);
                assert(d1.update(id as int, shifted)[id as int] == shifted);
                assert(d2[id as int] == shifted);
                assert(q.x.write_spec(d2, nx) =~= d2);
            }
            assert(q.x.write_spec(d2, nx) == d2);
            let yd2 = q.y.read_spec(d1);
            let ny = Interval { lo: if yd2.lo >= xd.lo { yd2.lo } else { xd.lo }, hi: yd2.hi };
            assert(!ny.is_empty_spec());
            assert(q.y.write_spec(d1, ny) == d1);
            if let Term::Var { id, offset } = q.y {
                let shifted = Interval {
                    lo: (ny.lo - offset) as i64,
                    hi: (ny.hi - offset) as i64,
                };
                assert(d1.update(id as int, shifted) == d1);
                assert(d1.update(id as int, shifted)[id as int] == shifted);
                assert(d2[id as int] == shifted);
                assert(q.y.write_spec(d2, ny) =~= d2);
            }
            assert(q.apply_spec(d2) == (d2, true));
        },
        Prop::Eq(q) => {
            if let Term::Var { id, offset } = q.x {
                assert(q.x.deps_spec().contains(id as int));
                assert(p.vars_spec().contains(id as int));
                assert(d1[id as int] == d2[id as int]);
            }
            if let Term::Var { id, offset } = q.y {
                assert(q.y.deps_spec().contains(id as int));
                assert(p.vars_spec().contains(id as int));
                assert(d1[id as int] == d2[id as int]);
            }
            assert(q.x.read_spec(d1) == q.x.read_spec(d2));
            assert(q.y.read_spec(d1) == q.y.read_spec(d2));
            let xd = q.x.read_spec(d1);
            let yd = q.y.read_spec(d1);
            let m = Interval {
                lo: if xd.lo >= yd.lo { xd.lo } else { yd.lo },
                hi: if xd.hi <= yd.hi { xd.hi } else { yd.hi },
            };
            assert(!m.is_empty_spec());
            assert(q.x.write_spec(d1, m) == d1);
            if let Term::Var { id, offset } = q.x {
                let shifted = Interval {
                    lo: (m.lo - offset) as i64,
                    hi: (m.hi - offset) as i64,
                };
                assert(d1.update(id as int, shifted) == d1);
                assert(d1.update(id as int, shifted)[id as int] == shifted);
                assert(d2[id as int] == shifted);
                assert(q.x.write_spec(d2, m) =~= d2);
            }
            assert(q.x.write_spec(d2, m) == d2);
            let yd2 = q.y.read_spec(d1);
            let m2 = Interval {
                lo: if yd2.lo >= xd.lo { yd2.lo } else { xd.lo },
                hi: if yd2.hi <= xd.hi { yd2.hi } else { xd.hi },
            };
            assert(!m2.is_empty_spec());
            assert(q.y.write_spec(d1, m2) == d1);
            if let Term::Var { id, offset } = q.y {
                let shifted = Interval {
                    lo: (m2.lo - offset) as i64,
                    hi: (m2.hi - offset) as i64,
                };
                assert(d1.update(id as int, shifted) == d1);
                assert(d1.update(id as int, shifted)[id as int] == shifted);
                assert(d2[id as int] == shifted);
                assert(q.y.write_spec(d2, m2) =~= d2);
            }
            assert(q.apply_spec(d2) == (d2, true));
        },
        Prop::NotEq(q) => {
            lemma_neq_stable_frame(q, d1, d2, p);
        },
        Prop::Distinct(q) => {
            lemma_distinct_stable_frame_from(q, d1, d2, p, 0);
        },
    }
}

/// Subsumption depends only on the propagator's own variables.
pub proof fn lemma_subsumed_frame(p: Prop, d1: Seq<Interval>, d2: Seq<Interval>)
    requires
        p.wf(),
        d1.len() == d2.len(),
        agree_on(p, d1, d2),
    ensures
        p.subsumed_spec(d2) == p.subsumed_spec(d1),
{
    match p {
        Prop::LessEq(q) => {
            if let Term::Var { id, offset } = q.x {
                assert(q.x.deps_spec().contains(id as int));
                assert(p.vars_spec().contains(id as int));
            }
            if let Term::Var { id, offset } = q.y {
                assert(q.y.deps_spec().contains(id as int));
                assert(p.vars_spec().contains(id as int));
            }
            assert(q.x.read_spec(d1) == q.x.read_spec(d2));
            assert(q.y.read_spec(d1) == q.y.read_spec(d2));
        },
        Prop::Eq(q) => {
            if let Term::Var { id, offset } = q.x {
                assert(q.x.deps_spec().contains(id as int));
                assert(p.vars_spec().contains(id as int));
            }
            if let Term::Var { id, offset } = q.y {
                assert(q.y.deps_spec().contains(id as int));
                assert(p.vars_spec().contains(id as int));
            }
            assert(q.x.read_spec(d1) == q.x.read_spec(d2));
            assert(q.y.read_spec(d1) == q.y.read_spec(d2));
        },
        Prop::NotEq(q) => {
            if let Term::Var { id, offset } = q.x {
                assert(q.x.deps_spec().contains(id as int));
                assert(p.vars_spec().contains(id as int));
            }
            if let Term::Var { id, offset } = q.y {
                assert(q.y.deps_spec().contains(id as int));
                assert(p.vars_spec().contains(id as int));
            }
            assert(q.x.read_spec(d1) == q.x.read_spec(d2));
            assert(q.y.read_spec(d1) == q.y.read_spec(d2));
        },
        Prop::Distinct(q) => {
            assert forall|k: int|
                0 <= k < q.props@.len() implies (#[trigger] q.props@[k]).subsumed_spec(d2)
                == q.props@[k].subsumed_spec(d1) by {
                let pair = q.props@[k];
                assert forall|v: int| #[trigger] pair.vars_spec().contains(v) implies d1[v]
                    == d2[v] by {
                    assert(q.props@[k].vars_spec().contains(v));
                    assert(exists|k2: int|
                        0 <= k2 < q.props@.len() && (#[trigger] q.props@[k2]).vars_spec().contains(
                            v,
                        ));
                    assert(q.vars_spec().contains(v));
                    assert(p.vars_spec().contains(v));
                }
                if let Term::Var { id, offset } = pair.x {
                    assert(pair.x.deps_spec().contains(id as int));
                    assert(pair.vars_spec().contains(id as int));
                }
                if let Term::Var { id, offset } = pair.y {
                    assert(pair.y.deps_spec().contains(id as int));
                    assert(pair.vars_spec().contains(id as int));
                }
                assert(pair.x.read_spec(d1) == pair.x.read_spec(d2));
                assert(pair.y.read_spec(d1) == pair.y.read_spec(d2));
            }
            if exists|k: int|
                0 <= k < q.props@.len() && (#[trigger] q.props@[k]).subsumed_spec(d1)
                    == Trilean::False {
                let k = choose|k: int|
                    0 <= k < q.props@.len() && (#[trigger] q.props@[k]).subsumed_spec(d1)
                        == Trilean::False;
                assert(q.props@[k].subsumed_spec(d2) == Trilean::False);
            }
            if exists|k: int|
                0 <= k < q.props@.len() && (#[trigger] q.props@[k]).subsumed_spec(d2)
                    == Trilean::False {
                let k = choose|k: int|
                    0 <= k < q.props@.len() && (#[trigger] q.props@[k]).subsumed_spec(d2)
                        == Trilean::False;
                assert(q.props@[k].subsumed_spec(d1) == Trilean::False);
            }
        },
    }
}

/// A propagation pass writes only the propagator's own variables: any
/// other domain is left exactly as it was.
pub proof fn lemma_apply_local(p: Prop, doms: Seq<Interval>)
    requires
        p.wf(),
        p.bound_spec(doms.len() as int),
        crate::vstore::doms_wf(doms),
    ensures
        forall|w: int|
            0 <= w < doms.len() && !p.vars_spec().contains(w) ==> #[trigger] p.apply_spec(
                doms,
            ).0[w] == doms[w],
{
    match p {
        Prop::LessEq(q) => {
            assert forall|w: int|
                0 <= w < doms.len() && !p.vars_spec().contains(w) implies #[trigger] p.apply_spec(
                doms,
            ).0[w] == doms[w] by {
                if let Term::Var { id, offset } = q.x {
                    assert(q.x.deps_spec().contains(id as int));
                    assert(p.vars_spec().contains(id as int));
                }
                if let Term::Var { id, offset } = q.y {
                    assert(q.y.deps_spec().contains(id as int));
                    assert(p.vars_spec().contains(id as int));
                }
            }
        },
        Prop::Eq(q) => {
            assert forall|w: int|
                0 <= w < doms.len() && !p.vars_spec().contains(w) implies #[trigger] p.apply_spec(
                doms,
            ).0[w] == doms[w] by {
                if let Term::Var { id, offset } = q.x {
                    assert(q.x.deps_spec().contains(id as int));
                    assert(p.vars_spec().contains(id as int));
                }
                if let Term::Var { id, offset } = q.y {
                    assert(q.y.deps_spec().contains(id as int));
                    assert(p.vars_spec().contains(id as int));
                }
            }
        },
        Prop::NotEq(q) => {
            assert forall|w: int|
                0 <= w < doms.len() && !p.vars_spec().contains(w) implies #[trigger] p.apply_spec(
                doms,
            ).0[w] == doms[w] by {
                if let Term::Var { id, offset } = q.x {
                    assert(q.x.deps_spec().contains(id as int));
                    assert(p.vars_spec().contains(id as int));
                }
                if let Term::Var { id, offset } = q.y {
                    assert(q.y.deps_spec().contains(id as int));
                    assert(p.vars_spec().contains(id as int));
                }
            }
        },
        Prop::Distinct(q) => {
            lemma_distinct_local_from(q, doms, 0, p);
        },
    }
}

/// The pairwise fold writes only variables of its pairs.
proof fn lemma_distinct_local_from(q: Distinct, doms: Seq<Interval>, k: int, p: Prop)
    requires
        p == Prop::Distinct(q),
        q.wf(),
        q.bound_spec(doms.len() as int),
        crate::vstore::doms_wf(doms),
        0 <= k,
    ensures
        distinct_apply_from(q.props@, doms, k).0.len() == doms.len(),
        forall|w: int|
            0 <= w < doms.len() && !p.vars_spec().contains(w) ==> #[trigger] distinct_apply_from(
                q.props@,
                doms,
                k,
            ).0[w] == doms[w],
    decreases q.props@.len() - k,
{
    if k < q.props@.len() {
        let pair = q.props@[k];
        assert(pair.wf());
        assert(pair.bound_spec(doms.len() as int));
        let step = pair.apply_spec(doms);
        assert forall|w: int|
            0 <= w < doms.len() && !p.vars_spec().contains(w) implies #[trigger] step.0[w]
            == doms[w] by {
            if let Term::Var { id, offset } = pair.x {
                assert(pair.x.deps_spec().contains(id as int));
                assert(pair.vars_spec().contains(id as int));
                assert(p.vars_spec().contains(id as int));
            }
            if let Term::Var { id, offset } = pair.y {
                assert(pair.y.deps_spec().contains(id as int));
                assert(pair.vars_spec().contains(id as int));
                assert(p.vars_spec().contains(id as int));
            }
        }
        if step.1 {
            lemma_neq_apply_shrinks(pair, doms);
            assert(crate::vstore::doms_wf(step.0));
            assert(pair.bound_spec(step.0.len() as int));
            lemma_distinct_local_from(q, step.0, k + 1, p);
        }
    }
}


/// `asn` picks one value inside each domain.
pub open spec fn within(asn: Seq<int>, doms: Seq<Interval>) -> bool {
    asn.len() == doms.len() && forall|i: int|
        0 <= i < doms.len() ==> (#[trigger] doms[i]).contains_spec(asn[i])
}

/// `asn` satisfies every propagator of the sequence.
pub open spec fn satisfies_all(asn: Seq<int>, props: Seq<Prop>) -> bool {
    forall|k: int| 0 <= k < props.len() ==> (#[trigger] props[k]).sem(asn)
}

/// A pass of a pairwise disequality never discards a solution: an
/// assignment inside the domains that satisfies the constraint is still
/// inside the narrowed domains, and the pass succeeds.
proof fn lemma_neq_preserves_solutions(q: XNeqY, doms: Seq<Interval>, asn: Seq<int>)
    requires
        q.wf(),
        q.bound_spec(doms.len() as int),
        crate::vstore::doms_wf(doms),
        within(asn, doms),
        q.sem(asn),
    ensures
        q.apply_spec(doms).1,
        within(asn, q.apply_spec(doms).0),
{
    crate::term::lemma_val_in_read(q.x, doms, asn);
    crate::term::lemma_val_in_read(q.y, doms, asn);
    let xd = q.x.read_spec(doms);
    let yd = q.y.read_spec(doms);
    let r = q.apply_spec(doms).0;
    if xd.is_singleton_spec() {
        let ny = yd.remove_spec(xd.lo as int);
        assert(ny.contains_spec(q.y.val_spec(asn)));
        assert(!ny.is_empty_spec());
        if let Term::Var { id, offset } = q.y {
            assert(q.y.deps_spec().contains(id as int));
            assert(doms[id as int].wf());
            assert forall|i: int| 0 <= i < r.len() implies (#[trigger] r[i]).contains_spec(
                asn[i],
            ) by {
                if i != id as int {
                    assert(r[i] == doms[i]);
                }
            }
        }
    } else if yd.is_singleton_spec() {
        let nx = xd.remove_spec(yd.lo as int);
        assert(nx.contains_spec(q.x.val_spec(asn)));
        assert(!nx.is_empty_spec());
        if let Term::Var { id, offset } = q.x {
            assert(q.x.deps_spec().contains(id as int));
            assert(doms[id as int].wf());
            assert forall|i: int| 0 <= i < r.len() implies (#[trigger] r[i]).contains_spec(
                asn[i],
            ) by {
                if i != id as int {
                    assert(r[i] == doms[i]);
                }
            }
        }
    }
}

/// The pairwise fold never discards a solution of all its pairs.
proof fn lemma_distinct_preserves_solutions_from(
    q: Distinct,
    doms: Seq<Interval>,
    asn: Seq<int>,
    k: int,
)
    requires
        q.wf(),
        q.bound_spec(doms.len() as int),
        crate::vstore::doms_wf(doms),
        within(asn, doms),
        forall|j: int| 0 <= j < q.props@.len() ==> (#[trigger] q.props@[j]).sem(asn),
        0 <= k,
    ensures
        distinct_apply_from(q.props@, doms, k).1,
        within(asn, distinct_apply_from(q.props@, doms, k).0),
    decreases q.props@.len() - k,
{
    if k < q.props@.len() {
        let pair = q.props@[k];
        assert(pair.wf());
        assert(pair.bound_spec(doms.len() as int));
        assert(pair.sem(asn));
        lemma_neq_preserves_solutions(pair, doms, asn);
        lemma_neq_apply_shrinks(pair, doms);
        let step = pair.apply_spec(doms);
        assert(crate::vstore::doms_wf(step.0));
        assert(pair.bound_spec(step.0.len() as int));
        lemma_distinct_preserves_solutions_from(q, step.0, asn, k + 1);
    }
}

/// No propagation pass discards a solution: an assignment inside the
/// domains that satisfies the propagator is inside the narrowed domains
/// too, and the pass succeeds.
pub proof fn lemma_apply_preserves_solutions(p: Prop, doms: Seq<Interval>, asn: Seq<int>)
    requires
        p.wf(),
        p.bound_spec(doms.len() as int),
        crate::vstore::doms_wf(doms),
        within(asn, doms),
        p.sem(asn),
    ensures
        p.apply_spec(doms).1,
        within(asn, p.apply_spec(doms).0),
{
    match p {
        Prop::LessEq(q) => {
            crate::term::lemma_val_in_read(q.x, doms, asn);
            crate::term::lemma_val_in_read(q.y, doms, asn);
            let xd = q.x.read_spec(doms);
            let yd = q.y.read_spec(doms);
            let nx = Interval { lo: xd.lo, hi: if xd.hi <= yd.hi { xd.hi } else { yd.hi } };
            assert(nx.contains_spec(q.x.val_spec(asn)));
            assert(!nx.is_empty_spec());
            let d1 = q.x.write_spec(doms, nx);
            assert(d1.len() == doms.len()) by {
                match q.x {
                    Term::Var { id, offset } => {
                        assert(q.x.deps_spec().contains(id as int));
                        assert((id as int) < doms.len());
                        assert(d1.len() == doms.len());
                    },
                    Term::Constant { value } => {
                        assert(d1.len() == doms.len());
                    },
                }
            }
            assert forall|i: int| 0 <= i < d1.len() implies (#[trigger] d1[i]).contains_spec(
                asn[i],
            ) by {
                if let Term::Var { id, offset } = q.x {
                    assert(q.x.deps_spec().contains(id as int));
                    assert(doms[id as int].wf());
                    if i != id as int {
                        assert(d1[i] == doms[i]);
                    }
                } else {
                    assert(d1[i] == doms[i]);
                }
            }
            let yd2 = q.y.read_spec(d1);
            let ny = Interval { lo: if yd2.lo >= xd.lo { yd2.lo } else { xd.lo }, hi: yd2.hi };
            assert(within(asn, d1));
            assert forall|i: int| 0 <= i < d1.len() implies (#[trigger] d1[i]).wf() by {
                if let Term::Var { id, offset } = q.x {
                    assert(q.x.deps_spec().contains(id as int));
                    assert(doms[id as int].wf());
                    if i != id as int {
                        assert(d1[i] == doms[i]);
                        assert(doms[i].wf());
                    }
                } else {
                    assert(d1[i] == doms[i]);
                    assert(doms[i].wf());
                }
            }
            crate::term::lemma_val_in_read(q.y, d1, asn);
            assert(ny.contains_spec(q.y.val_spec(asn)));
            assert(!ny.is_empty_spec());
            let r = q.y.write_spec(d1, ny);
            assert(r.len() == doms.len()) by {
                match q.y {
                    Term::Var { id, offset } => {
                        assert(q.y.deps_spec().contains(id as int));
                        assert((id as int) < d1.len());
                        assert(r.len() == d1.len());
                    },
                    Term::Constant { value } => {
                        assert(r.len() == d1.len());
                    },
                }
            }
            assert forall|i: int| 0 <= i < r.len() implies (#[trigger] r[i]).contains_spec(
                asn[i],
            ) by {
                if let Term::Var { id, offset } = q.y {
                    assert(q.y.deps_spec().contains(id as int));
                    assert(doms[id as int].wf());
                    assert(d1[id as int].contains_spec(asn[id as int]));
                    if i != id as int {
                        assert(r[i] == d1[i]);
                    }
                } else {
                    assert(r[i] == d1[i]);
                }
            }
            assert(p.apply_spec(doms) == (r, true));
            assert(within(asn, r));
        },
        Prop::Eq(q) => {
            crate::term::lemma_val_in_read(q.x, doms, asn);
            crate::term::lemma_val_in_read(q.y, doms, asn);
            let xd = q.x.read_spec(doms);
            let yd = q.y.read_spec(doms);
            let m = Interval {
                lo: if xd.lo >= yd.lo { xd.lo } else { yd.lo },
                hi: if xd.hi <= yd.hi { xd.hi } else { yd.hi },
            };
            assert(m.contains_spec(q.x.val_spec(asn)));
            assert(!m.is_empty_spec());
            let d1 = q.x.write_spec(doms, m);
            assert(d1.len() == doms.len()) by {
                match q.x {
                    Term::Var { id, offset } => {
                        assert(q.x.deps_spec().contains(id as int));
                        assert((id as int) < doms.len());
                        assert(d1.len() == doms.len());
                    },
                    Term::Constant { value } => {
                        assert(d1.len() == doms.len());
                    },
                }
            }
            assert forall|i: int| 0 <= i < d1.len() implies (#[trigger] d1[i]).contains_spec(
                asn[i],
            ) by {
                if let Term::Var { id, offset } = q.x {
                    assert(q.x.deps_spec().contains(id as int));
                    assert(doms[id as int].wf());
                    if i != id as int {
                        assert(d1[i] == doms[i]);
                    }
                } else {
                    assert(d1[i] == doms[i]);
                }
            }
            let yd2 = q.y.read_spec(d1);
            let m2 = Interval {
                lo: if yd2.lo >= xd.lo { yd2.lo } else { xd.lo },
                hi: if yd2.hi <= xd.hi { yd2.hi } else { xd.hi },
            };
            assert(within(asn, d1));
            assert forall|i: int| 0 <= i < d1.len() implies (#[trigger] d1[i]).wf() by {
                if let Term::Var { id, offset } = q.x {
                    assert(q.x.deps_spec().contains(id as int));
                    assert(doms[id as int].wf());
                    if i != id as int {
                        assert(d1[i] == doms[i]);
                        assert(doms[i].wf());
                    }
                } else {
                    assert(d1[i] == doms[i]);
                    assert(doms[i].wf());
                }
            }
            crate::term::lemma_val_in_read(q.y, d1, asn);
            assert(m2.contains_spec(q.y.val_spec(asn)));
            assert(!m2.is_empty_spec());
            let r = q.y.write_spec(d1, m2);
            assert(r.len() == doms.len()) by {
                match q.y {
                    Term::Var { id, offset } => {
                        assert(q.y.deps_spec().contains(id as int));
                        assert((id as int) < d1.len());
                        assert(r.len() == d1.len());
                    },
                    Term::Constant { value } => {
                        assert(r.len() == d1.len());
                    },
                }
            }
            assert forall|i: int| 0 <= i < r.len() implies (#[trigger] r[i]).contains_spec(
                asn[i],
            ) by {
                if let Term::Var { id, offset } = q.y {
                    assert(q.y.deps_spec().contains(id as int));
                    assert(doms[id as int].wf());
                    assert(d1[id as int].contains_spec(asn[id as int]));
                    if i != id as int {
                        assert(r[i] == d1[i]);
                    }
                } else {
                    assert(r[i] == d1[i]);
                }
            }
            assert(p.apply_spec(doms) == (r, true));
            assert(within(asn, r));
        },
        Prop::NotEq(q) => {
            lemma_neq_preserves_solutions(q, doms, asn);
        },
        Prop::Distinct(q) => {
            lemma_distinct_preserves_solutions_from(q, doms, asn, 0);
        },
    }
}

/// A violated propagator refutes every assignment within the domains.
pub proof fn lemma_subsumed_false_no_solution(p: Prop, doms: Seq<Interval>, asn: Seq<int>)
    requires
        p.wf(),
        p.bound_spec(doms.len() as int),
        crate::vstore::doms_wf(doms),
        within(asn, doms),
        p.subsumed_spec(doms) == Trilean::False,
    ensures
        !p.sem(asn),
{
    match p {
        Prop::LessEq(q) => {
            crate::term::lemma_val_in_read(q.x, doms, asn);
            crate::term::lemma_val_in_read(q.y, doms, asn);
        },
        Prop::Eq(q) => {
            crate::term::lemma_val_in_read(q.x, doms, asn);
            crate::term::lemma_val_in_read(q.y, doms, asn);
        },
        Prop::NotEq(q) => {
            crate::term::lemma_val_in_read(q.x, doms, asn);
            crate::term::lemma_val_in_read(q.y, doms, asn);
        },
        Prop::Distinct(q) => {
            let k = choose|k: int|
                0 <= k < q.props@.len() && (#[trigger] q.props@[k]).subsumed_spec(doms)
                    == Trilean::False;
            assert(q.props@[k].wf());
            assert(q.props@[k].bound_spec(doms.len() as int));
            crate::term::lemma_val_in_read(q.props@[k].x, doms, asn);
            crate::term::lemma_val_in_read(q.props@[k].y, doms, asn);
            assert(!q.props@[k].sem(asn));
        },
    }
}

} // verus!
