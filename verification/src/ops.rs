use vstd::prelude::*;

verus! {

/// A store that can tell whether it has reached an inconsistent state.
pub trait Failure {
    spec fn failed_spec(&self) -> bool;

    fn is_failed(&self) -> (r: bool)
        ensures
            r == self.failed_spec(),
    ;
}

/// A store whose locations can only be narrowed: an update must replace a
/// value by a subset of it.
pub trait MonotonicUpdate<Location, Value> {
    spec fn update_requires(&self, loc: Location, value: Value) -> bool;

    spec fn update_ensures(&self, post: &Self, loc: Location, value: Value, r: bool) -> bool;

    fn update(&mut self, loc: Location, value: Value) -> (r: bool)
        requires
            old(self).update_requires(loc, value),
        ensures
            old(self).update_ensures(final(self), loc, value, r),
    ;
}

/// Raw replacement of the value at a location, returning the previous value.
pub trait Replace<Location, Value> {
    spec fn replace_requires(&self, loc: Location, value: Value) -> bool;

    spec fn replace_ensures(&self, post: &Self, loc: Location, value: Value, r: Value) -> bool;

    fn replace(&mut self, loc: Location, value: Value) -> (r: Value)
        requires
            old(self).replace_requires(loc, value),
        ensures
            old(self).replace_ensures(final(self), loc, value, r),
    ;
}

} // verus!
