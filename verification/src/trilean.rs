use vstd::prelude::*;

verus! {

/// Three-valued logic used to report whether a constraint is already
/// entailed (`True`), violated (`False`) or still undecided (`Unknown`).
#[derive(Clone, Copy, PartialEq, Eq, Structural, Debug)]
pub enum Trilean {
    True,
    False,
    Unknown,
}

impl Trilean {
    /// Conjunction; `False` is absorbing, `Unknown` weakens `True`.
    pub fn and(self, other: Trilean) -> (r: Trilean)
        ensures
            r == self.and_spec(other),
    {
        match (self, other) {
            (Trilean::False, _) => Trilean::False,
            (_, Trilean::False) => Trilean::False,
            (Trilean::True, Trilean::True) => Trilean::True,
            _ => Trilean::Unknown,
        }
    }

    pub open spec fn and_spec(self, other: Trilean) -> Trilean {
        if self == Trilean::False || other == Trilean::False {
            Trilean::False
        } else if self == Trilean::True && other == Trilean::True {
            Trilean::True
        } else {
            Trilean::Unknown
        }
    }
}

} // verus!
