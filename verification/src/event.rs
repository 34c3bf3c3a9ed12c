use vstd::prelude::*;

verus! {

/// Classification of a domain change, ordered `Inner < Bound < Assignment`.
/// `Assignment` reduces a domain to a singleton, `Bound` moves an endpoint,
/// `Inner` removes interior values only.
#[derive(Clone, Copy, PartialEq, Eq, Structural, Debug)]
pub enum FDEvent {
    Inner,
    Bound,
    Assignment,
}

impl FDEvent {
    /// Position of the event in the total order `Inner < Bound < Assignment`.
    pub open spec fn rank(self) -> int {
        match self {
            FDEvent::Inner => 0,
            FDEvent::Bound => 1,
            FDEvent::Assignment => 2,
        }
    }

    pub open spec fn le_spec(self, other: FDEvent) -> bool {
        self.rank() <= other.rank()
    }

    /// Join of two events on the same variable: the stronger of the two.
    pub open spec fn join_spec(self, other: FDEvent) -> FDEvent {
        if self.rank() >= other.rank() {
            self
        } else {
            other
        }
    }

    pub fn le(self, other: FDEvent) -> (r: bool)
        ensures
            r == self.le_spec(other),
    {
        match (self, other) {
            (FDEvent::Inner, _) => true,
            (FDEvent::Bound, FDEvent::Inner) => false,
            (FDEvent::Bound, _) => true,
            (FDEvent::Assignment, FDEvent::Assignment) => true,
            (FDEvent::Assignment, _) => false,
        }
    }

    pub fn join(self, other: FDEvent) -> (r: FDEvent)
        ensures
            r == self.join_spec(other),
    {
        if self.le(other) {
            other
        } else {
            self
        }
    }
}

/// The join of events is associative.
pub proof fn lemma_join_assoc(a: FDEvent, b: FDEvent, c: FDEvent)
    ensures
        a.join_spec(b).join_spec(c) == a.join_spec(b.join_spec(c)),
{
}

} // verus!
