//! Trusted interface to `indexmap::IndexSet`, the order-preserving set that
//! backs the board's free-cell index.
//!
//! The set is modelled by `free_set_view`, the mathematical set of cell
//! indices it holds. Each wrapper states, over that view, what the
//! corresponding `IndexSet` method does according to its documentation and
//! source.

use vstd::prelude::*;

verus! {

#[verifier::external_type_specification]
#[verifier::external_body]
#[verifier::reject_recursive_types(T)]
#[verifier::reject_recursive_types(S)]
pub struct ExIndexSet<T, S>(indexmap::IndexSet<T, S>);

/// The elements held by a free-cell index set, as mathematical integers.
pub uninterp spec fn free_set_view(s: indexmap::IndexSet<usize>) -> Set<int>;

/// Relies on indexmap::IndexSet::new: creates a set with no elements.
#[verifier::external_body]
pub(crate) fn free_set_new() -> (s: indexmap::IndexSet<usize>)
    ensures
        free_set_view(s) == Set::<int>::empty(),
{
    indexmap::IndexSet::new()
}

/// Relies on indexmap::IndexSet::insert: adds the value to the set and
/// returns whether it was absent.
#[verifier::external_body]
pub(crate) fn free_set_insert(s: &mut indexmap::IndexSet<usize>, value: usize) -> (r: bool)
    ensures
        free_set_view(*final(s)) == free_set_view(*old(s)).insert(value as int),
        r == !free_set_view(*old(s)).contains(value as int),
{
    s.insert(value)
}

/// Relies on indexmap::IndexSet::swap_remove: takes the value out of the set
/// and returns whether it was present.
#[verifier::external_body]
pub(crate) fn free_set_swap_remove(s: &mut indexmap::IndexSet<usize>, value: usize) -> (r: bool)
    ensures
        free_set_view(*final(s)) == free_set_view(*old(s)).remove(value as int),
        r == free_set_view(*old(s)).contains(value as int),
{
    s.swap_remove(&value)
}

/// Relies on indexmap::IndexSet::len: returns the number of elements.
#[verifier::external_body]
pub(crate) fn free_set_len(s: &indexmap::IndexSet<usize>) -> (n: usize)
    ensures
        n == free_set_view(*s).len(),
{
    s.len()
}

/// Relies on indexmap::IndexSet::is_empty: returns whether the set has no
/// elements.
#[verifier::external_body]
pub(crate) fn free_set_is_empty(s: &indexmap::IndexSet<usize>) -> (r: bool)
    ensures
        r == free_set_view(*s).is_empty(),
{
    s.is_empty()
}

/// Relies on indexmap::IndexSet::get_index: returns the element at the given
/// position in the set's order, or nothing when the position is past the end.
#[verifier::external_body]
pub(crate) fn free_set_get_index(s: &indexmap::IndexSet<usize>, i: usize) -> (r: Option<usize>)
    ensures
        (i < free_set_view(*s).len()) <==> (r is Some),
        r matches Some(v) ==> free_set_view(*s).contains(v as int),
{
    s.get_index(i).copied()
}

} // verus!
