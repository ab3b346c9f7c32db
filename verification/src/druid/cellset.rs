//! Sets of cell indices and counts keyed by pairs of group roots, held in
//! `rustc_hash`'s `FxHashSet` and `FxHashMap`.

use vstd::prelude::*;
use rustc_hash::{FxBuildHasher, FxHashMap, FxHashSet};

verus! {

/// The hasher builder of `rustc_hash`'s maps and sets, carried opaquely.
#[verifier::external_type_specification]
#[verifier::external_body]
pub struct ExFxBuildHasher(FxBuildHasher);

/// Cell `c` is in `set`.
pub open spec fn has_cell(set: Set<usize>, c: int) -> bool {
    0 <= c <= usize::MAX && set.contains(c as usize)
}

/// The cells below `n` that `set` holds, as marks.
pub open spec fn marks_of(set: Set<usize>, n: int) -> Seq<bool> {
    Seq::new(n as nat, |i: int| has_cell(set, i))
}

/// Calls `HashSet::insert` on an `FxHashSet`; the contract claims that
/// afterwards the set holds exactly what it held before and `k`.
#[verifier::external_body]
pub(crate) fn cell_set_insert(set: &mut FxHashSet<usize>, k: usize)
    ensures
        final(set)@ == old(set)@.insert(k),
{
    set.insert(k);
}

/// Calls `HashSet::contains` on an `FxHashSet`; the contract claims that
/// it answers whether `k` is in the set.
#[verifier::external_body]
pub(crate) fn cell_set_contains(set: &FxHashSet<usize>, k: usize) -> (r: bool)
    ensures
        r == set@.contains(k),
{
    set.contains(&k)
}

/// Calls `HashMap::get` on an `FxHashMap` of counts keyed by root cell
/// and copies the value out; the contract claims that it gives the count
/// held for `k`, or none when `k` is not a key.
#[verifier::external_body]
pub(crate) fn root_count_get(m: &FxHashMap<usize, usize>, k: usize) -> (r: Option<usize>)
    ensures
        r == (if m@.contains_key(k) {
            Some(m@[k])
        } else {
            None
        }),
{
    m.get(&k).copied()
}

/// Calls `HashMap::insert` on an `FxHashMap` of counts keyed by root cell;
/// the contract claims that afterwards `k` holds `v` and every other key
/// what it held before.
#[verifier::external_body]
pub(crate) fn root_count_insert(m: &mut FxHashMap<usize, usize>, k: usize, v: usize)
    ensures
        final(m)@ == old(m)@.insert(k, v),
{
    m.insert(k, v);
}

/// Calls `HashMap::keys` on an `FxHashMap` of counts keyed by root cell and
/// collects them; the contract claims that each key comes out exactly
/// once, in an order it leaves open.
#[verifier::external_body]
pub(crate) fn root_count_keys(m: &FxHashMap<usize, usize>) -> (r: Vec<usize>)
    ensures
        r@.no_duplicates(),
        forall|k: usize| #[trigger] r@.contains(k) <==> m@.contains_key(k),
{
    m.keys().copied().collect()
}

/// Calls `HashMap::get` on an `FxHashMap` of counts keyed by a pair of
/// roots and copies the value out; the contract claims that it gives the
/// count held for `k`, or none when `k` is not a key.
#[verifier::external_body]
pub(crate) fn pair_count_get(m: &FxHashMap<(usize, usize), usize>, k: (usize, usize)) -> (r: Option<usize>)
    ensures
        r == (if m@.contains_key(k) {
            Some(m@[k])
        } else {
            None
        }),
{
    m.get(&k).copied()
}

/// Calls `HashMap::insert` on an `FxHashMap` of counts keyed by a pair of
/// roots; the contract claims that afterwards `k` holds `v` and every
/// other key what it held before.
#[verifier::external_body]
pub(crate) fn pair_count_insert(m: &mut FxHashMap<(usize, usize), usize>, k: (usize, usize), v: usize)
    ensures
        final(m)@ == old(m)@.insert(k, v),
{
    m.insert(k, v);
}

} // verus!
