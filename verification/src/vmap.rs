use vstd::prelude::*;
use crate::event::FDEvent;

verus! {

#[verifier::external_type_specification]
#[verifier::external_body]
#[verifier::reject_recursive_types(V)]
pub struct ExVecMap<V>(vec_map::VecMap<V>);

/// The delta buffer representation: variable id to strongest pending event.
pub type DeltaMap = vec_map::VecMap<FDEvent>;

/// The entries a delta buffer holds, as a map from variable id to event.
pub uninterp spec fn vm_entries(m: DeltaMap) -> Map<int, FDEvent>;

/// Relies on vec_map::VecMap::new: the new map has no entries.
#[verifier::external_body]
pub fn vm_new() -> (r: DeltaMap)
    ensures
        vm_entries(r).dom() =~= Set::<int>::empty(),
{
    vec_map::VecMap::new()
}

/// Relies on vec_map::VecMap::get: returns the value stored at `key`, if any.
#[verifier::external_body]
pub fn vm_get(m: &vec_map::VecMap<FDEvent>, key: usize) -> (r: Option<FDEvent>)
    ensures
        r == if vm_entries(*m).dom().contains(key as int) {
            Some(vm_entries(*m)[key as int])
        } else {
            None::<FDEvent>
        },
{
    m.get(key).copied()
}

/// Relies on vec_map::VecMap::insert: sets the entry at `key` to `value`,
/// keeping all other entries.
#[verifier::external_body]
pub fn vm_insert(m: &mut vec_map::VecMap<FDEvent>, key: usize, value: FDEvent)
    ensures
        vm_entries(*final(m)) == vm_entries(*old(m)).insert(key as int, value),
{
    m.insert(key, value);
}

/// Relies on vec_map::VecMap::is_empty: true iff the map has no entries.
#[verifier::external_body]
pub fn vm_is_empty(m: &vec_map::VecMap<FDEvent>) -> (r: bool)
    ensures
        r == (vm_entries(*m).dom() =~= Set::<int>::empty()),
{
    m.is_empty()
}

/// Relies on vec_map::VecMap::drain: yields every entry, in ascending key
/// order, and leaves the map empty.
#[verifier::external_body]
pub fn vm_drain(m: &mut vec_map::VecMap<FDEvent>) -> (r: Vec<(usize, FDEvent)>)
    ensures
        vm_entries(*final(m)).dom() =~= Set::<int>::empty(),
        forall|i: int|
            0 <= i < r@.len() ==> vm_entries(*old(m)).dom().contains((#[trigger] r@[i]).0 as int)
                && r@[i].1 == vm_entries(*old(m))[r@[i].0 as int],
        forall|k: int|
            vm_entries(*old(m)).dom().contains(k) ==> exists|i: int|
                0 <= i < r@.len() && (#[trigger] r@[i]).0 as int == k,
        forall|i: int, j: int| 0 <= i < j < r@.len() ==> r@[i].0 < r@[j].0,
{
    m.drain().collect()
}

/// Relies on vec_map::VecMap's Clone: the clone holds the same entries.
#[verifier::external_body]
pub fn vm_clone(m: &vec_map::VecMap<FDEvent>) -> (r: vec_map::VecMap<FDEvent>)
    ensures
        vm_entries(r) == vm_entries(*m),
{
    m.clone()
}

} // verus!
