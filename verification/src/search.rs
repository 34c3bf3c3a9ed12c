use vstd::prelude::*;
use crate::interval::Interval;
use crate::props::{Prop, XLessEqY};
use crate::props::{satisfies_all, within};
use crate::space::{Branch, FrozenSpace, Space, branch_admits, node_admits};
use crate::term::Term;
use crate::trilean::Trilean;
use crate::vstore::VStore;

verus! {

/// Outcome of visiting a search-tree node.
pub enum Status {
    Satisfiable,
    Pruned,
    Unsatisfiable,
    Unknown(Vec<Branch>),
}

impl Status {
    pub fn is_satisfiable(&self) -> (r: bool)
        ensures
            r == (*self matches Status::Satisfiable),
    {
        match self {
            Status::Satisfiable => true,
            _ => false,
        }
    }

    /// Promote to `Satisfiable` or `Pruned` depending on `status`.
    pub fn or(self, status: &Status) -> (r: Status)
        ensures
            (*status matches Status::Satisfiable) ==> (r matches Status::Satisfiable),
            !(*status matches Status::Satisfiable) && (self matches Status::Unsatisfiable) && (
            *status matches Status::Pruned) ==> (r matches Status::Pruned),
            !(*status matches Status::Satisfiable) && !((self matches Status::Unsatisfiable) && (
            *status matches Status::Pruned)) ==> r == self,
    {
        match (self, status) {
            (_, Status::Satisfiable) => Status::Satisfiable,
            (Status::Unsatisfiable, Status::Pruned) => Status::Pruned,
            (s, _) => s,
        }
    }
}

/// Select the first variable of smallest cardinality among those not yet
/// assigned (more than one value left), ties broken by smallest id.
pub struct FirstSmallestVar;

impl FirstSmallestVar {
    /// `None` exactly when every domain has at most one value.
    pub fn select(&self, vstore: &VStore) -> (r: Option<usize>)
        requires
            vstore.wf(),
        ensures
            match r {
                Some(i) => i < vstore.doms_spec().len() && vstore.doms_spec()[i as int].card_spec()
                    > 1 && forall|j: int|
                    0 <= j < vstore.doms_spec().len() && (#[trigger] vstore.doms_spec()[j]).card_spec()
                        > 1 ==> vstore.doms_spec()[i as int].card_spec()
                        <= vstore.doms_spec()[j].card_spec() && (vstore.doms_spec()[j].card_spec()
                        == vstore.doms_spec()[i as int].card_spec() ==> i <= j),
                None => forall|j: int|
                    0 <= j < vstore.doms_spec().len() ==> (#[trigger] vstore.doms_spec()[j]).card_spec()
                        <= 1,
            },
    {
        let n = vstore.len();
        let mut best: Option<usize> = None;
        let mut best_card: u64 = 0;
        let mut j: usize = 0;
        while j < n
            invariant
                vstore.wf(),
                n == vstore.doms_spec().len(),
                j <= n,
                match best {
                    Some(i) => i < j && vstore.doms_spec()[i as int].card_spec() > 1 && best_card
                        == vstore.doms_spec()[i as int].card_spec() && forall|j2: int|
                        0 <= j2 < j && (#[trigger] vstore.doms_spec()[j2]).card_spec() > 1
                            ==> vstore.doms_spec()[i as int].card_spec()
                            <= vstore.doms_spec()[j2].card_spec() && (
                        vstore.doms_spec()[j2].card_spec()
                            == vstore.doms_spec()[i as int].card_spec() ==> i <= j2),
                    None => forall|j2: int|
                        0 <= j2 < j ==> (#[trigger] vstore.doms_spec()[j2]).card_spec() <= 1,
                },
            decreases n - j,
        {
            let d = vstore.read(j);
            proof {
                assert(vstore.doms_spec()[j as int].wf());
            }
            let c = d.size();
            if c > 1 {
                match best {
                    None => {
                        best = Some(j);
                        best_card = c;
                    },
                    Some(i) => {
                        if c < best_card {
                            best = Some(j);
                            best_card = c;
                        }
                    },
                }
            }
            j += 1;
        }
        best
    }
}

/// Split a variable's interval in half: left child `x <= mid`, right child
/// `x > mid`, with `mid` the floor of the midpoint.
pub struct BinarySplit;

/// The midpoint used by `BinarySplit`.
pub open spec fn mid_of(d: Interval) -> int {
    (d.lo + d.hi) / 2
}

impl BinarySplit {
    /// Split variable `var_idx` of the space.  Splitting a nonexistent,
    /// empty or singleton domain is a caller error, excluded by contract:
    /// unverified callers must test the domain first and fail loudly.
    /// Returns the snapshot of the space and the two branches, left
    /// (`x <= mid`) first; between them the two constraints cover every
    /// integer value.
    pub fn distribute(&self, space: Space, var_idx: usize) -> (r: (FrozenSpace, Vec<Branch>))
        requires
            space.wf(),
            var_idx < space.vstore.doms_spec().len(),
            !space.vstore.doms_spec()[var_idx as int].is_empty_spec(),
            !space.vstore.doms_spec()[var_idx as int].is_singleton_spec(),
        ensures
            ({
                let d = space.vstore.doms_spec()[var_idx as int];
                &&& r.0.space.wf()
                &&& r.0.space.vstore.doms_spec() == space.vstore.doms_spec()
                &&& r.0.space.cstore.props@ == space.cstore.props@
                &&& r.1.len() == 2
                &&& r.1[0].wf()
                &&& r.1[1].wf()
                &&& r.1[0].parent.space.vstore.doms_spec() == space.vstore.doms_spec()
                &&& r.1[1].parent.space.vstore.doms_spec() == space.vstore.doms_spec()
                &&& r.1[0].parent.space.cstore.props@ == space.cstore.props@
                &&& r.1[1].parent.space.cstore.props@ == space.cstore.props@
                &&& r.1[0].op == Prop::LessEq(
                    XLessEqY {
                        x: Term::Var { id: var_idx, offset: 0i64 },
                        y: Term::Constant { value: mid_of(d) as i64 },
                    },
                )
                &&& r.1[1].op == Prop::LessEq(
                    XLessEqY {
                        x: Term::Constant { value: (mid_of(d) + 1) as i64 },
                        y: Term::Var { id: var_idx, offset: 0i64 },
                    },
                )
                &&& forall|asn: Seq<int>|
                    #[trigger] r.1[0].op.sem(asn) || #[trigger] r.1[1].op.sem(asn)
            }),
    {
        let dom = space.vstore.read(var_idx);
        proof {
            assert(space.vstore.doms_spec()[var_idx as int].wf());
        }
        let width: i64 = dom.upper() - dom.lower();
        let mid: i64 = dom.lower() + width / 2;
        proof {
            assert(mid == (dom.lo + dom.hi) / 2 && dom.lo <= mid < dom.hi) by (nonlinear_arith)
                requires
                    dom.lo < dom.hi,
                    width == dom.hi - dom.lo,
                    mid == dom.lo + width / 2,
            ;
            assert(mid == mid_of(space.vstore.doms_spec()[var_idx as int]));
        }
        let x_less_mid = Prop::LessEq(
            XLessEqY { x: Term::identity(var_idx), y: Term::constant(mid) },
        );
        let x_greater_mid = Prop::LessEq(
            XLessEqY { x: Term::constant(mid + 1), y: Term::identity(var_idx) },
        );
        let frozen = space.freeze();
        let left = Branch { parent: FrozenSpace { space: frozen.restore() }, op: x_less_mid };
        let right = Branch { parent: FrozenSpace { space: frozen.restore() }, op: x_greater_mid };
        let mut branches: Vec<Branch> = Vec::new();
        branches.push(left);
        branches.push(right);
        proof {
            assert forall|asn: Seq<int>|
                #[trigger] branches[0].op.sem(asn) || #[trigger] branches[1].op.sem(asn) by {
                if !branches[0].op.sem(asn) {
                    assert(branches[1].op.sem(asn));
                }
            }
        }
        (frozen, branches)
    }
}

/// The domain of the `var_idx`-th variable of the store.
pub fn nth_dom(vstore: &VStore, var_idx: usize) -> (r: Interval)
    requires
        var_idx < vstore.doms_spec().len(),
    ensures
        r == vstore.doms_spec()[var_idx as int],
{
    vstore.read(var_idx)
}

/// Variable selection composed with domain splitting.
pub struct Brancher {
    pub var_sel: FirstSmallestVar,
    pub distributor: BinarySplit,
}

impl Brancher {
    pub fn new(var_sel: FirstSmallestVar, distributor: BinarySplit) -> (r: Brancher)
        ensures
            r == (Brancher { var_sel, distributor }),
    {
        Brancher { var_sel, distributor }
    }

    /// The children of a node: empty only when every variable is assigned
    /// (or failed); otherwise the two halves of the first smallest
    /// unassigned variable, which together admit every assignment the node
    /// admits.
    pub fn branch(&self, space: Space) -> (r: (FrozenSpace, Vec<Branch>))
        requires
            space.wf(),
        ensures
            r.0.space.wf(),
            r.0.space.vstore.doms_spec() == space.vstore.doms_spec(),
            r.0.space.cstore.props@ == space.cstore.props@,
            r.1@.len() == 0 ==> forall|j: int|
                0 <= j < space.vstore.doms_spec().len() ==> (
                #[trigger] space.vstore.doms_spec()[j]).card_spec() <= 1,
            forall|i: int| 0 <= i < r.1@.len() ==> (#[trigger] r.1@[i]).wf(),
            r.1@.len() == 0 || r.1@.len() == 2,
            r.1@.len() == 2 ==> forall|asn: Seq<int>|
                #[trigger] node_admits(space, asn) ==> branch_admits(r.1@[0], asn)
                    || branch_admits(r.1@[1], asn),
    {
        match self.var_sel.select(&space.vstore) {
            None => {
                let frozen = space.freeze();
                (frozen, Vec::new())
            },
            Some(idx) => {
                proof {
                    assert(space.vstore.doms_spec()[idx as int].card_spec() > 1);
                }
                let ghost orig = space;
                let r = self.distributor.distribute(space, idx);
                proof {
                    assert forall|asn: Seq<int>|
                        #[trigger] node_admits(orig, asn) implies branch_admits(r.1@[0], asn)
                        || branch_admits(r.1@[1], asn) by {
                        assert(within(asn, r.1@[0].parent.space.vstore.doms_spec()));
                        assert(satisfies_all(asn, r.1@[0].parent.space.cstore.props@));
                        assert(within(asn, r.1@[1].parent.space.vstore.doms_spec()));
                        assert(satisfies_all(asn, r.1@[1].parent.space.cstore.props@));
                        assert(r.1@[0].op.sem(asn) || r.1@[1].op.sem(asn));
                    }
                }
                r
            },
        }
    }
}

/// True iff every domain of the store is a singleton.
fn all_assigned(vstore: &VStore) -> (r: bool)
    ensures
        r == (forall|i: int|
            0 <= i < vstore.doms_spec().len() ==> (
            #[trigger] vstore.doms_spec()[i]).is_singleton_spec()),
{
    let n = vstore.len();
    let mut i: usize = 0;
    while i < n
        invariant
            n == vstore.doms_spec().len(),
            i <= n,
            forall|j: int|
                0 <= j < i ==> (#[trigger] vstore.doms_spec()[j]).is_singleton_spec(),
        decreases n - i,
    {
        if !vstore.read(i).is_singleton() {
            return false;
        }
        i += 1;
    }
    true
}

/// The propagation step of the search: classify one node, asking the
/// brancher for children when propagation alone does not decide.
pub struct Propagation {
    pub brancher: Brancher,
}

impl Propagation {
    pub fn new(brancher: Brancher) -> (r: Propagation)
        ensures
            r == (Propagation { brancher }),
    {
        Propagation { brancher }
    }

    /// Propagate the space to a fixed point and classify it.
    /// `Satisfiable`: every domain is a nonempty singleton and the (unique)
    /// assignment within the domains satisfies every constraint.
    /// `Unsatisfiable`: no assignment admitted by the input exists.
    /// `Unknown`: the node could not be decided; it carries either two
    /// children that together admit every assignment the node admits, or
    /// none (nothing left to split).  `Pruned` is never produced.
    pub fn enter(&self, current: Space) -> (r: (Space, Status))
        requires
            current.wf(),
        ensures
            !(r.1 matches Status::Pruned),
            (r.1 matches Status::Satisfiable) || (r.1 matches Status::Unknown(_)) ==> r.0.wf(),
            (r.1 matches Status::Satisfiable) ==> crate::vstore::all_nonempty(
                r.0.vstore.doms_spec(),
            ) && (forall|i: int|
                0 <= i < r.0.vstore.doms_spec().len() ==> (
                #[trigger] r.0.vstore.doms_spec()[i]).is_singleton_spec()) && (forall|
                asn: Seq<int>,
            |
                within(asn, r.0.vstore.doms_spec()) ==> satisfies_all(asn, r.0.cstore.props@)),
            (r.1 matches Status::Unsatisfiable) ==> forall|asn: Seq<int>|
                !#[trigger] node_admits(current, asn),
            !(r.1 matches Status::Unsatisfiable) ==> forall|asn: Seq<int>|
                #[trigger] node_admits(current, asn) ==> node_admits(r.0, asn),
            (r.1 matches Status::Unknown(bs) ==> (forall|i: int|
                0 <= i < bs@.len() ==> (#[trigger] bs@[i]).wf()) && (bs@.len() == 0 || bs@.len()
                == 2) && (bs@.len() == 2 ==> forall|asn: Seq<int>|
                #[trigger] node_admits(r.0, asn) ==> branch_admits(bs@[0], asn) || branch_admits(
                    bs@[1],
                    asn,
                ))),
    {
        let ghost input = current;
        let mut space = current;
        let verdict = space.consistency();
        proof {
            if verdict != Trilean::False {
                assert forall|asn: Seq<int>|
                    #[trigger] node_admits(input, asn) implies node_admits(space, asn) by {
                    assert(within(asn, space.vstore.doms_spec()));
                }
            }
        }
        match verdict {
            Trilean::False => (space, Status::Unsatisfiable),
            Trilean::True => {
                if all_assigned(&space.vstore) {
                    (space, Status::Satisfiable)
                } else {
                    let ghost before = space;
                    let (frozen, branches) = self.brancher.branch(space);
                    let node = frozen.space;
                    proof {
                        assert forall|asn: Seq<int>|
                            #[trigger] node_admits(input, asn) implies node_admits(node, asn) by {
                            assert(within(asn, node.vstore.doms_spec()));
                        }
                        if branches@.len() == 2 {
                            assert forall|asn: Seq<int>|
                                #[trigger] node_admits(node, asn) implies branch_admits(
                                branches@[0],
                                asn,
                            ) || branch_admits(branches@[1], asn) by {
                                assert(within(asn, before.vstore.doms_spec()));
                                assert(satisfies_all(asn, before.cstore.props@));
                                assert(node_admits(before, asn));
                            }
                        }
                    }
                    (node, Status::Unknown(branches))
                }
            },
            Trilean::Unknown => {
                let ghost before = space;
                let (frozen, branches) = self.brancher.branch(space);
                let node = frozen.space;
                proof {
                    assert forall|asn: Seq<int>|
                        #[trigger] node_admits(input, asn) implies node_admits(node, asn) by {
                        assert(within(asn, node.vstore.doms_spec()));
                    }
                    if branches@.len() == 2 {
                        assert forall|asn: Seq<int>|
                            #[trigger] node_admits(node, asn) implies branch_admits(
                            branches@[0],
                            asn,
                        ) || branch_admits(branches@[1], asn) by {
                            assert(within(asn, before.vstore.doms_spec()));
                            assert(satisfies_all(asn, before.cstore.props@));
                            assert(node_admits(before, asn));
                        }
                    }
                }
                (node, Status::Unknown(branches))
            },
        }
    }
}

/// A visitor of the search tree: `start` is told the root, `enter`
/// explores from the given space and reports the outcome.
pub trait SearchTreeVisitor {
    /// What the visitor asks of the space it is given.
    spec fn enter_req(&self, current: &Space) -> bool;

    /// What the visitor promises of its outcome, given the space it
    /// explored from.
    spec fn enter_post(&self, pre: &Self, input: &Space, r: &(Space, Status)) -> bool;

    /// What `start` promises of the visitor's state.
    spec fn start_post(&self, pre: &Self) -> bool;

    fn start(&mut self, root: &Space)
        ensures
            final(self).start_post(old(self)),
    ;

    fn enter(&mut self, current: Space) -> (r: (Space, Status))
        requires
            old(self).enter_req(&current),
        ensures
            final(self).enter_post(old(self), &current, &r),
    ;
}

/// Depth-first search for one solution, with an explicit stack of open
/// branches.  The number of explored nodes is bounded; when the bound is
/// hit the search surfaces `Unknown` rather than claiming a verdict.
pub struct OneSolution {
    pub child: Propagation,
}

impl OneSolution {
    pub fn new(child: Propagation) -> (r: OneSolution)
        ensures
            r == (OneSolution { child }),
    {
        OneSolution { child }
    }
}

impl SearchTreeVisitor for OneSolution {
    /// The space handed in must be well formed.
    open spec fn enter_req(&self, current: &Space) -> bool {
        current.wf()
    }

    /// The verdicts are sound: on `Satisfiable` the returned space is well
    /// formed, every domain is a nonempty singleton, and the assignment
    /// within the domains satisfies every posted constraint; on
    /// `Unsatisfiable` no assignment within the input's domains satisfies
    /// all its constraints.  `Pruned` is never produced.
    open spec fn enter_post(&self, pre: &Self, input: &Space, r: &(Space, Status)) -> bool {
        &&& !(r.1 matches Status::Pruned)
        &&& (r.1 matches Status::Satisfiable) ==> r.0.wf() && crate::vstore::all_nonempty(
            r.0.vstore.doms_spec(),
        ) && (forall|i: int|
            0 <= i < r.0.vstore.doms_spec().len() ==> (
            #[trigger] r.0.vstore.doms_spec()[i]).is_singleton_spec()) && (forall|asn: Seq<int>|
            within(asn, r.0.vstore.doms_spec()) ==> satisfies_all(asn, r.0.cstore.props@))
        &&& (r.1 matches Status::Unsatisfiable) ==> forall|asn: Seq<int>|
            !#[trigger] node_admits(*input, asn)
    }

    /// `start` leaves the engine as it was.
    open spec fn start_post(&self, pre: &Self) -> bool {
        *self == *pre
    }

    fn start(&mut self, _root: &Space) {
    }

    fn enter(&mut self, current: Space) -> (r: (Space, Status)) {
        let ghost root = current;
        let mut fuel: u64 = 1152921504606846976;
        let mut stack: Vec<Branch> = Vec::new();
        let mut node = current;
        loop
            invariant
                root == current,
                node.wf(),
                forall|i: int| 0 <= i < stack@.len() ==> (#[trigger] stack@[i]).wf(),
                forall|asn: Seq<int>|
                    #[trigger] node_admits(root, asn) ==> node_admits(node, asn) || exists|i: int|
                        0 <= i < stack@.len() && #[trigger] branch_admits(stack@[i], asn),
            decreases fuel,
        {
            if fuel == 0 {
                return (node, Status::Unknown(Vec::new()));
            }
            fuel = fuel - 1;
            let ghost entered = node;
            let (space2, status) = self.child.enter(node);
            match status {
                Status::Satisfiable => {
                    return (space2, Status::Satisfiable);
                },
                Status::Pruned => {
                    proof {
                        assert(false);
                    }
                    return (space2, Status::Unknown(Vec::new()));
                },
                Status::Unsatisfiable => {
                    let ghost pre_stack = stack@;
                    match stack.pop() {
                        None => {
                            proof {
                                assert forall|asn: Seq<int>|
                                    !#[trigger] node_admits(root, asn) by {
                                    if node_admits(root, asn) {
                                        assert(!node_admits(entered, asn));
                                    }
                                }
                                assert(root == current);
                            }
                            return (space2, Status::Unsatisfiable);
                        },
                        Some(b) => {
                            node = b.commit();
                            proof {
                                assert forall|asn: Seq<int>|
                                    #[trigger] node_admits(root, asn) implies node_admits(
                                    node,
                                    asn,
                                ) || exists|i: int|
                                    0 <= i < stack@.len() && #[trigger] branch_admits(
                                        stack@[i],
                                        asn,
                                    ) by {
                                    assert(!node_admits(entered, asn));
                                    let i = choose|i: int|
                                        0 <= i < pre_stack.len() && #[trigger] branch_admits(
                                            pre_stack[i],
                                            asn,
                                        );
                                    if i == pre_stack.len() - 1 {
                                        assert(b == pre_stack[i]);
                                        assert(node_admits(node, asn));
                                    } else {
                                        assert(stack@[i] == pre_stack[i]);
                                        assert(branch_admits(stack@[i], asn));
                                    }
                                }
                            }
                        },
                    }
                },
                Status::Unknown(branches) => {
                    if branches.len() != 2 {
                        return (space2, Status::Unknown(Vec::new()));
                    }
                    let mut bs = branches;
                    let ghost bs0 = bs@[0];
                    let ghost bs1 = bs@[1];
                    let b1 = match bs.pop() {
                        Some(b) => b,
                        None => {
                            proof {
                                assert(false);
                            }
                            return (space2, Status::Unknown(Vec::new()));
                        },
                    };
                    let b0 = match bs.pop() {
                        Some(b) => b,
                        None => {
                            proof {
                                assert(false);
                            }
                            return (space2, Status::Unknown(Vec::new()));
                        },
                    };
                    let ghost pre_stack = stack@;
                    stack.push(b1);
                    node = b0.commit();
                    proof {
                        assert(b0 == bs0);
                        assert(b1 == bs1);
                        assert forall|asn: Seq<int>|
                            #[trigger] node_admits(root, asn) implies node_admits(node, asn)
                            || exists|i: int|
                            0 <= i < stack@.len() && #[trigger] branch_admits(
                                stack@[i],
                                asn,
                            ) by {
                            if node_admits(entered, asn) {
                                assert(node_admits(space2, asn));
                                if branch_admits(bs0, asn) {
                                    assert(node_admits(node, asn));
                                } else {
                                    assert(branch_admits(bs1, asn));
                                    assert(stack@[pre_stack.len() as int] == b1);
                                    assert(branch_admits(stack@[pre_stack.len() as int], asn));
                                }
                            } else {
                                let i = choose|i: int|
                                    0 <= i < pre_stack.len() && #[trigger] branch_admits(
                                        pre_stack[i],
                                        asn,
                                    );
                                assert(stack@[i] == pre_stack[i]);
                                assert(branch_admits(stack@[i], asn));
                            }
                        }
                        assert forall|i: int|
                            0 <= i < stack@.len() implies (#[trigger] stack@[i]).wf() by {
                            if i < pre_stack.len() {
                                assert(stack@[i] == pre_stack[i]);
                            }
                        }
                    }
                },
            }
        }
    }
}

/// The default one-solution search: first-smallest variable selection,
/// binary splitting, and depth-first exploration with propagation at every
/// node.
pub fn one_solution_engine() -> (r: OneSolution)
    ensures
        r == (OneSolution {
            child: Propagation {
                brancher: Brancher { var_sel: FirstSmallestVar, distributor: BinarySplit },
            },
        }),
{
    OneSolution::new(Propagation::new(Brancher::new(FirstSmallestVar, BinarySplit)))
}

} // verus!
