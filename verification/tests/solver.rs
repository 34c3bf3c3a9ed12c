use pcp::event::FDEvent;
use pcp::interval::Interval;
use pcp::ops::{Failure, MonotonicUpdate, Replace};
use pcp::props::{Distinct, Prop, XEqY, XLessEqY, XNeqY};
use pcp::search::{
    BinarySplit, Brancher, FirstSmallestVar, OneSolution, Propagation, SearchTreeVisitor, Status,
    nth_dom, one_solution_engine,
};
use pcp::space::Space;
use pcp::term::Term;
use pcp::trilean::Trilean;
use pcp::vstore::VStore;

fn store_of(doms: Vec<(i64, i64)>) -> (VStore, Vec<Term>) {
    let mut store = VStore::empty();
    let mut vars = Vec::new();
    for (l, u) in doms {
        let id = store.allocate(Interval::new(l, u));
        vars.push(Term::identity(id));
    }
    (store, vars)
}

fn distinct_test_one(
    test_num: u32,
    doms: Vec<(i64, i64)>,
    before: Trilean,
    after: Trilean,
    delta_expected: Vec<(usize, FDEvent)>,
    propagate_success: bool,
) {
    let (mut store, vars) = store_of(doms);
    let prop = Distinct::new(vars);
    assert_eq!(prop.is_subsumed(&store), before, "test {}: before", test_num);
    assert_eq!(
        prop.propagate(&mut store),
        propagate_success,
        "test {}: propagation",
        test_num
    );
    assert_eq!(prop.is_subsumed(&store), after, "test {}: after", test_num);
    if propagate_success {
        let deltas = store.drain_delta();
        assert_eq!(deltas, delta_expected, "test {}: delta", test_num);
    }
}

#[test]
fn distinct_test() {
    let zero = (0, 0);
    let one = (1, 1);
    let two = (2, 2);
    let dom0_1 = (0, 1);
    let dom0_2 = (0, 2);
    let dom0_3 = (0, 3);

    distinct_test_one(1, vec![zero, one, two], Trilean::True, Trilean::True, vec![], true);
    distinct_test_one(2, vec![zero, zero, two], Trilean::False, Trilean::False, vec![], false);
    distinct_test_one(
        3,
        vec![zero, one, dom0_3],
        Trilean::Unknown,
        Trilean::True,
        vec![(2, FDEvent::Bound)],
        true,
    );
    distinct_test_one(
        4,
        vec![zero, one, dom0_2],
        Trilean::Unknown,
        Trilean::True,
        vec![(2, FDEvent::Assignment)],
        true,
    );
    distinct_test_one(5, vec![zero, one, dom0_1], Trilean::Unknown, Trilean::False, vec![], false);
    distinct_test_one(
        6,
        vec![zero, dom0_3, dom0_3],
        Trilean::Unknown,
        Trilean::Unknown,
        vec![(1, FDEvent::Bound), (2, FDEvent::Bound)],
        true,
    );
    distinct_test_one(7, vec![dom0_3], Trilean::True, Trilean::True, vec![], true);
}

fn test_distributor(
    distributor: BinarySplit,
    distribution_index: usize,
    root: Vec<(i64, i64)>,
    children: Vec<(i64, i64)>,
) {
    let mut space = Space::empty();
    for (l, u) in root {
        space.vstore.allocate(Interval::new(l, u));
    }
    // Splitting a singleton or empty domain is a contract violation:
    // unverified callers must check the domain first and fail loudly.
    let dom = nth_dom(&space.vstore, distribution_index);
    assert!(
        !dom.is_singleton() && !dom.is_empty(),
        "Can not distribute over assigned or failed variables."
    );
    let (_immutable_state, branches) = distributor.distribute(space, distribution_index);

    assert_eq!(branches.len(), children.len());

    for (branch, (l, u)) in branches.into_iter().zip(children.into_iter()) {
        let mut space = branch.commit();
        assert_eq!(space.consistency(), Trilean::True);
        let split_dom = nth_dom(&space.vstore, distribution_index);
        assert_eq!(split_dom, Interval::new(l, u));
    }
}

#[test]
fn binary_split_distribution() {
    let vars = vec![(1, 10), (2, 4), (1, 2)];
    test_distributor(BinarySplit, 0, vars.clone(), vec![(1, 5), (6, 10)]);
    test_distributor(BinarySplit, 1, vars.clone(), vec![(2, 3), (4, 4)]);
    test_distributor(BinarySplit, 2, vars.clone(), vec![(1, 1), (2, 2)]);
}

#[test]
#[should_panic]
fn binary_split_impossible_distribution() {
    test_distributor(BinarySplit, 0, vec![(1, 1)], vec![]);
}

#[test]
#[should_panic]
fn binary_split_impossible_distribution_2() {
    test_distributor(BinarySplit, 2, vec![(1, 5), (2, 4), (4, 4)], vec![]);
}

fn nqueens_space(n: usize) -> Space {
    let mut space = Space::empty();
    let mut queens = Vec::new();
    for _ in 0..n {
        let id = space.vstore.allocate(Interval::new(1, n as i64));
        queens.push(Term::identity(id));
    }
    for i in 0..n - 1 {
        for j in i + 1..n {
            let q1 = (i + 1) as i64;
            let q2 = (j + 1) as i64;
            space.cstore.allocate(Prop::NotEq(XNeqY::new(queens[i], queens[j].addition(q2 - q1))));
            space.cstore.allocate(Prop::NotEq(XNeqY::new(queens[i], queens[j].addition(q1 - q2))));
        }
    }
    space.cstore.allocate(Prop::Distinct(Distinct::new(queens)));
    space
}

#[test]
fn nqueens_two_is_unsatisfiable() {
    let space = nqueens_space(2);
    let mut search = one_solution_engine();
    search.start(&space);
    let (_space, status) = search.enter(space);
    assert!(matches!(status, Status::Unsatisfiable));
}

#[test]
fn nqueens_ten_first_solution() {
    let n: usize = 10;
    let space = nqueens_space(n);
    let mut search = one_solution_engine();
    search.start(&space);
    let (space, status) = search.enter(space);
    assert!(matches!(status, Status::Satisfiable));
    let mut values = Vec::new();
    for i in 0..n {
        let dom = space.vstore.read(i);
        assert_eq!(dom.lower(), dom.upper(), "solution domain {} not a singleton", i);
        values.push(dom.lower());
    }
    let mut sorted = values.clone();
    sorted.sort();
    let expected: Vec<i64> = (1..=n as i64).collect();
    assert_eq!(sorted, expected, "not a permutation of 1..{}", n);
    for i in 0..n {
        for j in i + 1..n {
            let diff = (values[i] - values[j]).abs();
            assert_ne!(diff, (j - i) as i64, "queens {} and {} share a diagonal", i, j);
        }
    }
    // The first solution under first-smallest-variable selection with
    // binary splitting is deterministic.
    let again = {
        let space = nqueens_space(n);
        let mut search = one_solution_engine();
        search.start(&space);
        let (space, status) = search.enter(space);
        assert!(matches!(status, Status::Satisfiable));
        let mut vs = Vec::new();
        for i in 0..n {
            vs.push(space.vstore.read(i).lower());
        }
        vs
    };
    assert_eq!(values, again);
}

#[test]
fn interval_operations() {
    let a = Interval::new(0, 5);
    let b = Interval::new(3, 8);
    assert_eq!(a.intersect(&b), Interval::new(3, 5));
    assert_eq!(a.intersect_leq(3), Interval::new(0, 3));
    assert_eq!(a.intersect_geq(2), Interval::new(2, 5));
    assert!(a.intersect(&Interval::new(7, 9)).is_empty());
    assert_eq!(a.size(), 6);
    assert!(Interval::new(4, 4).is_singleton());
    assert!(Interval::new(4, 3).is_empty());
    assert!(a.is_disjoint(&Interval::new(6, 7)));
    assert!(!a.is_disjoint(&b));
    assert!(Interval::new(1, 2).is_subset(&a));
    assert!(!a.is_subset(&Interval::new(1, 2)));
    assert!(a.contains(5));
    assert!(!a.contains(6));
    assert_eq!(a.shift(2), Interval::new(2, 7));
    // Removing a value only weakens bounds; interior removal is a no-op.
    assert_eq!(a.remove(0), Interval::new(1, 5));
    assert_eq!(a.remove(5), Interval::new(0, 4));
    assert_eq!(a.remove(3), Interval::new(0, 5));
    assert!(Interval::new(2, 2).remove(2).is_empty());
}

#[test]
fn update_event_classes() {
    let mut store = VStore::empty();
    let x = store.allocate(Interval::new(0, 5));
    assert!(!store.has_changed());
    // A bound change records `Bound`.
    assert!(store.update(x, Interval::new(0, 3)));
    assert!(store.has_changed());
    // A later shrink to a singleton joins up to `Assignment`.
    assert!(store.update(x, Interval::new(2, 2)));
    let deltas = store.drain_delta();
    assert_eq!(deltas, vec![(x, FDEvent::Assignment)]);
    assert!(!store.has_changed());
    // An equal update records nothing.
    assert!(store.update(x, Interval::new(2, 2)));
    assert!(!store.has_changed());
    // An empty update is refused and changes nothing.
    assert!(!store.update(x, Interval::new(3, 2)));
    assert_eq!(store.read(x), Interval::new(2, 2));
    assert!(!store.has_changed());
}

#[test]
fn store_failure_and_replace() {
    let mut store = VStore::empty();
    let x = store.allocate(Interval::new(1, 3));
    assert!(!store.is_failed());
    let prev = store.replace(x, Interval::new(5, 4));
    assert_eq!(prev, Interval::new(1, 3));
    assert!(store.is_failed());
}

#[test]
fn leq_propagation_narrows_bounds() {
    let (mut store, vars) = store_of(vec![(0, 5), (2, 3)]);
    let p = XLessEqY::new(vars[0], vars[1]);
    assert_eq!(p.is_subsumed(&store), Trilean::Unknown);
    assert!(p.propagate(&mut store));
    assert_eq!(store.read(0), Interval::new(0, 3));
    assert_eq!(store.read(1), Interval::new(2, 3));
    let deltas = store.drain_delta();
    assert_eq!(deltas, vec![(0, FDEvent::Bound)]);
    // Entailed once every value of x is below every value of y.
    assert!(store.update(0, Interval::new(0, 2)));
    assert_eq!(p.is_subsumed(&store), Trilean::True);
}

#[test]
fn leq_failure() {
    let (mut store, vars) = store_of(vec![(7, 9), (2, 3)]);
    let p = XLessEqY::new(vars[0], vars[1]);
    assert_eq!(p.is_subsumed(&store), Trilean::False);
    assert!(!p.propagate(&mut store));
}

#[test]
fn eq_propagation_intersects() {
    let (mut store, vars) = store_of(vec![(0, 5), (3, 8)]);
    let p = XEqY::new(vars[0], vars[1]);
    assert_eq!(p.is_subsumed(&store), Trilean::Unknown);
    assert!(p.propagate(&mut store));
    assert_eq!(store.read(0), Interval::new(3, 5));
    assert_eq!(store.read(1), Interval::new(3, 5));
    // Disjoint sides are a violation.
    let (store2, vars2) = store_of(vec![(0, 1), (4, 5)]);
    let q = XEqY::new(vars2[0], vars2[1]);
    assert_eq!(q.is_subsumed(&store2), Trilean::False);
}

#[test]
fn neq_with_addition_view() {
    // x != y + 1 with x in [2,2], y in [1,4]: removes 1 from y at its bound.
    let (mut store, vars) = store_of(vec![(2, 2), (1, 4)]);
    let p = XNeqY::new(vars[0], vars[1].addition(1));
    assert!(p.propagate(&mut store));
    assert_eq!(store.read(1), Interval::new(2, 4));
}

#[test]
fn subsumption_is_stable_under_shrinking() {
    let (mut store, vars) = store_of(vec![(0, 2), (5, 9)]);
    let p = XNeqY::new(vars[0], vars[1]);
    assert_eq!(p.is_subsumed(&store), Trilean::True);
    assert!(store.update(0, Interval::new(1, 2)));
    assert!(store.update(1, Interval::new(5, 6)));
    assert_eq!(p.is_subsumed(&store), Trilean::True);
}

#[test]
fn first_smallest_var_selection() {
    let (store, _) = store_of(vec![(1, 10), (2, 4), (1, 2)]);
    let sel = FirstSmallestVar;
    assert_eq!(sel.select(&store), Some(2));
    // Ties break towards the smallest id.
    let (store2, _) = store_of(vec![(1, 2), (5, 6)]);
    assert_eq!(sel.select(&store2), Some(0));
    // A fully assigned store selects nothing.
    let (store3, _) = store_of(vec![(1, 1), (4, 4)]);
    assert_eq!(sel.select(&store3), None);
}

#[test]
fn trilean_conjunction() {
    assert_eq!(Trilean::True.and(Trilean::True), Trilean::True);
    assert_eq!(Trilean::True.and(Trilean::Unknown), Trilean::Unknown);
    assert_eq!(Trilean::Unknown.and(Trilean::False), Trilean::False);
    assert_eq!(Trilean::False.and(Trilean::True), Trilean::False);
}

#[test]
fn status_operations() {
    assert!(Status::Satisfiable.is_satisfiable());
    assert!(!Status::Unsatisfiable.is_satisfiable());
    assert!(!Status::Pruned.is_satisfiable());
    assert!(Status::Unsatisfiable.or(&Status::Satisfiable).is_satisfiable());
    assert!(matches!(Status::Unsatisfiable.or(&Status::Pruned), Status::Pruned));
    assert!(matches!(Status::Pruned.or(&Status::Unsatisfiable), Status::Pruned));
    assert!(matches!(Status::Unsatisfiable.or(&Status::Unsatisfiable), Status::Unsatisfiable));
}

#[test]
fn space_freeze_restore_roundtrip() {
    let mut space = Space::empty();
    let x = space.vstore.allocate(Interval::new(1, 4));
    let y = space.vstore.allocate(Interval::new(2, 9));
    space.cstore.allocate(Prop::LessEq(XLessEqY::new(Term::identity(x), Term::identity(y))));
    let frozen = space.freeze();
    let mut child = frozen.restore();
    assert_eq!(child.vstore.read(x), Interval::new(1, 4));
    assert_eq!(child.vstore.read(y), Interval::new(2, 9));
    // Narrowing the child leaves the snapshot untouched.
    assert!(child.vstore.update(y, Interval::new(2, 3)));
    let sibling = frozen.restore();
    assert_eq!(sibling.vstore.read(y), Interval::new(2, 9));
    // Propagating the child clips x against the narrowed y; x <= y is not
    // yet entailed, so consistency stays Unknown.
    assert_eq!(child.consistency(), Trilean::Unknown);
    assert_eq!(child.vstore.read(x), Interval::new(1, 3));
}

#[test]
fn propagation_enter_classifies() {
    // An inconsistent space is Unsatisfiable.
    let mut space = Space::empty();
    let x = space.vstore.allocate(Interval::new(7, 9));
    let y = space.vstore.allocate(Interval::new(2, 3));
    space.cstore.allocate(Prop::LessEq(XLessEqY::new(Term::identity(x), Term::identity(y))));
    let step = Propagation::new(Brancher::new(FirstSmallestVar, BinarySplit));
    let (_s, status) = step.enter(space);
    assert!(matches!(status, Status::Unsatisfiable));
    // An undecided space yields the two children of the smallest variable.
    let mut space2 = Space::empty();
    let a = space2.vstore.allocate(Interval::new(0, 3));
    let b = space2.vstore.allocate(Interval::new(0, 3));
    space2.cstore.allocate(Prop::NotEq(XNeqY::new(Term::identity(a), Term::identity(b))));
    let (_s2, status2) = step.enter(space2);
    match status2 {
        Status::Unknown(branches) => assert_eq!(branches.len(), 2),
        _ => panic!("expected an undecided node"),
    }
}

#[test]
fn solve_simple_chain() {
    // x < y < z inside [0,2] forces x=0, y=1, z=2.
    let mut space = Space::empty();
    let x = space.vstore.allocate(Interval::new(0, 2));
    let y = space.vstore.allocate(Interval::new(0, 2));
    let z = space.vstore.allocate(Interval::new(0, 2));
    // x < y is x <= y - 1.
    space.cstore.allocate(Prop::LessEq(XLessEqY::new(
        Term::identity(x),
        Term::identity(y).addition(-1),
    )));
    space.cstore.allocate(Prop::LessEq(XLessEqY::new(
        Term::identity(y),
        Term::identity(z).addition(-1),
    )));
    let mut search = one_solution_engine();
    search.start(&space);
    let (space, status) = search.enter(space);
    assert!(status.is_satisfiable());
    assert_eq!(space.vstore.read(x), Interval::new(0, 0));
    assert_eq!(space.vstore.read(y), Interval::new(1, 1));
    assert_eq!(space.vstore.read(z), Interval::new(2, 2));
}
