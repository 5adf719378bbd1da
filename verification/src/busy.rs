//! The set of block numbers that the bitmaps mark busy and that the
//! traversal has not reached yet, kept in a hash set with the FNV hasher.

use vstd::prelude::*;
use fnv::FnvHashSet;

verus! {

/// The FNV hasher, which the set of busy blocks hashes its numbers with.
#[verifier::external_type_specification]
#[verifier::external_body]
pub struct ExFnvHasher(fnv::FnvHasher);

/// The builder that makes a hasher of the default value of its type.
#[verifier::external_type_specification]
#[verifier::external_body]
#[verifier::reject_recursive_types(H)]
pub struct ExBuildHasherDefault<H>(std::hash::BuildHasherDefault<H>);

/// Calls `HashSet::insert` on a set with the FNV hasher: afterwards the set
/// holds `blk_num` beside what it held, and the result says whether the
/// number is new to it.
#[verifier::external_body]
pub(crate) fn busy_insert(set: &mut FnvHashSet<usize>, blk_num: usize) -> (fresh: bool)
    ensures
        final(set)@ == old(set)@.insert(blk_num),
        fresh == !old(set)@.contains(blk_num),
{
    set.insert(blk_num)
}

/// Calls `HashSet::contains` on a set with the FNV hasher: the result says
/// whether the set holds `blk_num`.
#[verifier::external_body]
pub(crate) fn busy_contains(set: &FnvHashSet<usize>, blk_num: usize) -> (held: bool)
    ensures
        held == set@.contains(blk_num),
{
    set.contains(&blk_num)
}

/// Calls `HashSet::remove` on a set with the FNV hasher: afterwards the set
/// holds what it held but for `blk_num`, and the result says whether it held
/// the number.
#[verifier::external_body]
pub(crate) fn busy_remove(set: &mut FnvHashSet<usize>, blk_num: usize) -> (held: bool)
    ensures
        final(set)@ == old(set)@.remove(blk_num),
        held == old(set)@.contains(blk_num),
{
    set.remove(&blk_num)
}

/// Walks a set with the FNV hasher by `HashSet::iter` and hands out its
/// numbers: each number of the set once, in an order that is not fixed.
#[verifier::external_body]
pub(crate) fn busy_numbers(set: &FnvHashSet<usize>) -> (numbers: Vec<usize>)
    ensures
        numbers@.no_duplicates(),
        numbers@.to_set() == set@,
{
    set.iter().copied().collect()
}

} // verus!
