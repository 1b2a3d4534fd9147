//! The constraint memo set: producer/acceptor state pairs already checked in
//! the current biunification batch, hashed with seahash.

use vstd::prelude::*;
use std::collections::HashSet;
use std::hash::BuildHasherDefault;

verus! {

#[verifier::external_type_specification]
#[verifier::external_body]
pub struct ExSeaHasher(seahash::SeaHasher);

#[verifier::external_type_specification]
#[verifier::external_body]
#[verifier::reject_recursive_types(H)]
pub struct ExBuildHasherDefault<H>(BuildHasherDefault<H>);

/// Pairs of automaton states already checked in the current batch.
pub type PairSet = HashSet<(usize, usize), BuildHasherDefault<seahash::SeaHasher>>;

/// Relies on `Default` for `std::collections::HashSet`: an empty set (the
/// seahash-built hasher plays no part in which keys the set holds).
#[verifier::external_body]
pub(crate) fn pair_set_new() -> (r: PairSet)
    ensures
        r@ == Set::<(usize, usize)>::empty(),
{
    Default::default()
}

/// Relies on `std::collections::HashSet::insert`: adds the pair and reports
/// whether it was absent before.
#[verifier::external_body]
pub(crate) fn pair_set_insert(s: &mut PairSet, p: (usize, usize)) -> (r: bool)
    ensures
        final(s)@ == old(s)@.insert(p),
        r == !old(s)@.contains(p),
{
    s.insert(p)
}

} // verus!
