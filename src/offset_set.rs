use fnv::FnvHashSet;
use vstd::prelude::*;

verus! {

#[verifier::external_type_specification]
#[verifier::external_body]
pub struct ExFnvHasher(fnv::FnvHasher);

#[verifier::external_type_specification]
#[verifier::external_body]
#[verifier::reject_recursive_types(H)]
pub struct ExBuildHasherDefault<H>(std::hash::BuildHasherDefault<H>);

/// Relies on fnv's `FnvHashSet::default`: a new set holds nothing.
#[verifier::external_body]
pub(crate) fn new_offset_set() -> (r: FnvHashSet<usize>)
    ensures
        r@ == Set::<usize>::empty(),
{
    FnvHashSet::default()
}

/// Relies on `HashSet::insert` under fnv's hasher: the value is added, and
/// `true` comes back when it was not there before.
#[verifier::external_body]
pub(crate) fn offset_set_insert(s: &mut FnvHashSet<usize>, v: usize) -> (r: bool)
    ensures
        final(s)@ == old(s)@.insert(v),
        r == !old(s)@.contains(v),
{
    s.insert(v)
}

/// Relies on `HashSet::contains` under fnv's hasher: whether the value is in
/// the set.
#[verifier::external_body]
pub(crate) fn offset_set_contains(s: &FnvHashSet<usize>, v: usize) -> (r: bool)
    ensures
        r == s@.contains(v),
{
    s.contains(&v)
}

} // verus!
