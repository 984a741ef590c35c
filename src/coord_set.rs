use vstd::prelude::*;

use bevy::platform::collections::HashSet;
use bevy::platform::hash::FixedHasher;

verus! {

/// bevy's default hasher, the second parameter of its `HashSet`; carried
/// through opaquely.
#[verifier::external_type_specification]
#[verifier::external_body]
pub struct ExFixedHasher(FixedHasher);

/// bevy's `HashSet`, which holds the coordinates of the spawned chunks; what
/// it holds is `coords_in`.
#[verifier::external_type_specification]
#[verifier::external_body]
#[verifier::reject_recursive_types(T)]
#[verifier::reject_recursive_types(S)]
pub struct ExHashSet<T, S>(HashSet<T, S>);

/// The coordinates that a set holds.
pub uninterp spec fn coords_in(s: HashSet<(i32, i32)>) -> Set<(i32, i32)>;

/// Relies on bevy's `HashSet::new`: a new set is empty.
#[verifier::external_body]
pub(crate) fn coord_set_new() -> (r: HashSet<(i32, i32)>)
    ensures
        coords_in(r) == Set::<(i32, i32)>::empty(),
{
    HashSet::new()
}

/// Relies on bevy's `HashSet::contains`: whether the set holds `c`.
#[verifier::external_body]
pub(crate) fn coord_set_contains(s: &HashSet<(i32, i32)>, c: (i32, i32)) -> (r: bool)
    ensures
        r == coords_in(*s).contains(c),
{
    s.contains(&c)
}

/// Relies on bevy's `HashSet::insert`: afterwards the set also holds `c`.
#[verifier::external_body]
pub(crate) fn coord_set_insert(s: &mut HashSet<(i32, i32)>, c: (i32, i32))
    ensures
        coords_in(*final(s)) == coords_in(*old(s)).insert(c),
{
    s.insert(c);
}

/// Relies on bevy's `HashSet::remove`: afterwards the set no longer holds `c`.
#[verifier::external_body]
pub(crate) fn coord_set_remove(s: &mut HashSet<(i32, i32)>, c: (i32, i32))
    ensures
        coords_in(*final(s)) == coords_in(*old(s)).remove(c),
{
    s.remove(&c);
}

} // verus!
