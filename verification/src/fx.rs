//! The hash collections of `fxhash` that the library keeps its sets and maps in.

use vstd::prelude::*;
use fxhash::{FxHashMap, FxHashSet};
use crate::facts::Loan;

verus! {

/// `fxhash::FxHasher`, the hasher of the sets and maps below: carried
/// through as it is, with nothing said of what it holds.
#[verifier::external_type_specification]
#[verifier::external_body]
pub struct ExFxHasher(fxhash::FxHasher);

/// `std::hash::BuildHasherDefault`, which makes the hashers of the sets and
/// maps below: carried through as it is, with nothing said of what it holds.
#[verifier::reject_recursive_types(H)]
#[verifier::external_type_specification]
#[verifier::external_body]
pub struct ExBuildHasherDefault<H>(std::hash::BuildHasherDefault<H>);

/// Makes an empty set of positions.
///
/// Rests on `FxHashSet::default`, which makes a hash set with no element.
#[verifier::external_body]
pub(crate) fn visited_new() -> (visited: FxHashSet<usize>)
    ensures
        visited@ == Set::<usize>::empty(),
{
    FxHashSet::default()
}

/// Puts a position into the set, and says whether it was new to it.
///
/// Rests on `HashSet::insert` with the hasher of `fxhash`, which hashes equal
/// numbers alike: the set then holds the position and what it held before,
/// and the result is `true` exactly where the position was not in it.
#[verifier::external_body]
pub(crate) fn visited_insert(visited: &mut FxHashSet<usize>, position: usize) -> (fresh: bool)
    ensures
        final(visited)@ == old(visited)@.insert(position),
        fresh == !old(visited)@.contains(position),
{
    visited.insert(position)
}

/// Makes an empty map from the positions of points to loans.
///
/// Rests on `FxHashMap::default`, which makes a hash map with no entry.
#[verifier::external_body]
pub(crate) fn live_map_new() -> (live: FxHashMap<usize, Vec<Loan>>)
    ensures
        live@.dom() == Set::<usize>::empty(),
{
    FxHashMap::default()
}

/// Puts the loans of a point into the map.
///
/// Rests on `HashMap::insert` with the hasher of `fxhash`, which hashes equal
/// numbers alike: the map then holds the loans at the point, in place of what
/// it held there, and at every other point what it held before.
#[verifier::external_body]
pub(crate) fn live_map_insert(live: &mut FxHashMap<usize, Vec<Loan>>, point: usize, loans: Vec<Loan>)
    ensures
        final(live)@ == old(live)@.insert(point, loans),
{
    live.insert(point, loans);
}

/// Looks up the loans of a point.
///
/// Rests on `HashMap::get` with the hasher of `fxhash`: the result is what
/// the map holds at the point, or nothing where it holds nothing there.
#[verifier::external_body]
pub(crate) fn live_map_get(live: &FxHashMap<usize, Vec<Loan>>, point: usize) -> (loans: Option<
    &Vec<Loan>,
>)
    ensures
        loans matches Some(found) ==> live@.contains_key(point) && *found == live@[point],
        loans is None ==> !live@.contains_key(point),
{
    live.get(&point)
}

} // verus!
