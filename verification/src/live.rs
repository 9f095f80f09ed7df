//! The persistent vector of `im` that holds which events of a recorded history
//! are still to be explained: positions into the recorded history, in order.
use vstd::prelude::*;

verus! {

#[verifier::external_type_specification]
#[verifier::external_body]
#[verifier::reject_recursive_types(A)]
pub struct ExVector<A>(im::Vector<A>);

/// The positions that a persistent vector holds, in order.
pub uninterp spec fn live_positions(v: im::Vector<usize>) -> Seq<usize>;

/// Calls `im::Vector::from(Vec<A>)`: the vector holds the items of the `Vec`,
/// in the same order.
#[verifier::external_body]
pub(crate) fn live_from(v: Vec<usize>) -> (r: im::Vector<usize>)
    ensures
        live_positions(r) == v@,
{
    im::Vector::from(v)
}

/// Calls `im::Vector::len`: the number of items.
#[verifier::external_body]
pub(crate) fn live_len(v: &im::Vector<usize>) -> (n: usize)
    ensures
        n == live_positions(*v).len(),
{
    v.len()
}

/// Calls `im::Vector::index` (which panics out of bounds): the item at `i`.
#[verifier::external_body]
pub(crate) fn live_at(v: &im::Vector<usize>, i: usize) -> (p: usize)
    requires
        i < live_positions(*v).len(),
    ensures
        p == live_positions(*v)[i as int],
{
    v[i]
}

/// Calls `im::Vector::clone`: a vector with the same items.
#[verifier::external_body]
pub(crate) fn live_clone(v: &im::Vector<usize>) -> (r: im::Vector<usize>)
    ensures
        live_positions(r) == live_positions(*v),
{
    v.clone()
}

/// Calls `im::Vector::remove` (which panics out of bounds): the item at `i`
/// leaves, the later ones shift left by one, and the removed item is returned.
#[verifier::external_body]
pub(crate) fn live_remove(v: &mut im::Vector<usize>, i: usize) -> (p: usize)
    requires
        i < live_positions(*old(v)).len(),
    ensures
        p == live_positions(*old(v))[i as int],
        live_positions(*final(v)) == live_positions(*old(v)).remove(i as int),
{
    v.remove(i)
}

} // verus!
