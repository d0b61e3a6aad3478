use vstd::prelude::*;
use arrayvec::ArrayVec;

verus! {

#[verifier::external_type_specification]
#[verifier::external_body]
#[verifier::reject_recursive_types(T)]
pub struct ExArrayVec<T, const CAP: usize>(ArrayVec<T, CAP>);

/// A list of at most 60 swap positions: all that a board can have.
pub type MoveList = ArrayVec<usize, 60>;

/// The positions a move list holds, in order.
pub uninterp spec fn move_list_items(v: ArrayVec<usize, 60>) -> Seq<usize>;

/// Relies on `ArrayVec::new`: a new vector is empty.
#[verifier::external_body]
pub(crate) fn empty_move_list() -> (r: MoveList)
    ensures
        move_list_items(r) == Seq::<usize>::empty(),
{
    ArrayVec::new()
}

/// Relies on `ArrayVec::push`: appends an element, and panics only when the vector is full.
#[verifier::external_body]
pub(crate) fn push_move(v: &mut MoveList, pos: usize)
    requires
        move_list_items(*old(v)).len() < 60,
    ensures
        move_list_items(*final(v)) == move_list_items(*old(v)).push(pos),
{
    v.push(pos)
}

/// Relies on `ArrayVec::len`: the number of elements.
#[verifier::external_body]
pub(crate) fn move_count(v: &MoveList) -> (r: usize)
    ensures
        r == move_list_items(*v).len(),
{
    v.len()
}

/// Relies on indexing an `ArrayVec` (through its slice): the element at `i`.
#[verifier::external_body]
pub(crate) fn move_at(v: &MoveList, i: usize) -> (r: usize)
    requires
        i < move_list_items(*v).len(),
    ensures
        r == move_list_items(*v)[i as int],
{
    v[i]
}

} // verus!
