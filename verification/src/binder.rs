//! The recursion-binder stack: one automaton state per currently-open
//! recursion binder, innermost first. A persistent vector is used so that a
//! snapshot for each deferred piece of work is a cheap clone.

use vstd::prelude::*;

verus! {

#[verifier::external_type_specification]
#[verifier::external_body]
#[verifier::reject_recursive_types(A)]
pub struct ExImVector<A>(im::Vector<A>);

/// The states on a binder stack, innermost binder first.
pub uninterp spec fn binder_elems(v: im::Vector<usize>) -> Seq<usize>;

/// Relies on `im::Vector::new`: an empty vector.
#[verifier::external_body]
pub(crate) fn binders_new() -> (r: im::Vector<usize>)
    ensures
        binder_elems(r) == Seq::<usize>::empty(),
{
    im::Vector::new()
}

/// Relies on `im::Vector::push_front`: inserts the value at index 0.
#[verifier::external_body]
pub(crate) fn binders_push_front(v: &mut im::Vector<usize>, x: usize)
    ensures
        binder_elems(*final(v)) == seq![x] + binder_elems(*old(v)),
{
    v.push_front(x)
}

/// Relies on `im::Vector::pop_front`: removes and returns the first element,
/// or returns `None` when the vector is empty.
#[verifier::external_body]
pub(crate) fn binders_pop_front(v: &mut im::Vector<usize>) -> (r: Option<usize>)
    ensures
        binder_elems(*old(v)).len() > 0 ==> r == Some(binder_elems(*old(v))[0])
            && binder_elems(*final(v)) == binder_elems(*old(v)).drop_first(),
        binder_elems(*old(v)).len() == 0 ==> r is None && binder_elems(*final(v)) == binder_elems(
            *old(v),
        ),
{
    v.pop_front()
}

/// Relies on `im::Vector::get`: the element at the index, or `None` when the
/// index is out of bounds.
#[verifier::external_body]
pub(crate) fn binders_get(v: &im::Vector<usize>, i: usize) -> (r: Option<usize>)
    ensures
        i < binder_elems(*v).len() ==> r == Some(binder_elems(*v)[i as int]),
        i >= binder_elems(*v).len() ==> r is None,
{
    match v.get(i) {
        Some(x) => Some(*x),
        None => None,
    }
}

/// Relies on `im::Vector::clone`: a persistent copy holding the same elements.
#[verifier::external_body]
pub(crate) fn binders_clone(v: &im::Vector<usize>) -> (r: im::Vector<usize>)
    ensures
        binder_elems(r) == binder_elems(*v),
{
    v.clone()
}

} // verus!
