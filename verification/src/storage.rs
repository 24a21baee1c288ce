use vstd::prelude::*;

use arrayvec::ArrayVec;

use crate::frame::FrameKey;
use crate::index::Index;
use crate::FRAME_CAPACITY;

verus! {

// Frames hold their children in `arrayvec::ArrayVec`: a vector of fixed
// capacity that never reallocates, so a frame occupies the same amount of
// memory however full it is.  Verus does not read the crate, so the type is
// declared opaque and the two instantiations the frames use are described by
// uninterpreted contents functions, with a trusted wrapper per method.
#[verifier::external_type_specification]
#[verifier::external_body]
#[verifier::reject_recursive_types(T)]
pub struct ExArrayVec<T, const CAP: usize>(ArrayVec<T, CAP>);

/// The element handles a base frame's key array holds, in order.
pub uninterp spec fn key_slots(v: ArrayVec<Index, FRAME_CAPACITY>) -> Seq<Index>;

/// The child frame keys a meta frame's array holds, in order.
pub uninterp spec fn child_slots(v: ArrayVec<FrameKey, FRAME_CAPACITY>) -> Seq<FrameKey>;

/// Relies on ArrayVec::new: a new vector is empty.
#[verifier::external_body]
pub fn key_slots_new() -> (r: ArrayVec<Index, FRAME_CAPACITY>)
    ensures
        key_slots(r).len() == 0,
{
    ArrayVec::new()
}

/// Relies on ArrayVec::len: the number of elements held.
#[verifier::external_body]
pub fn key_slots_len(v: &ArrayVec<Index, FRAME_CAPACITY>) -> (r: usize)
    ensures
        r == key_slots(*v).len(),
{
    v.len()
}

/// Relies on ArrayVec::push: appends the element; panics only on a full
/// vector, which the precondition rules out.
#[verifier::external_body]
pub fn key_slots_push(v: &mut ArrayVec<Index, FRAME_CAPACITY>, value: Index)
    requires
        key_slots(*old(v)).len() < FRAME_CAPACITY,
    ensures
        key_slots(*final(v)) == key_slots(*old(v)).push(value),
{
    v.push(value)
}

/// Relies on indexing through ArrayVec's slice view; panics only out of
/// bounds, which the precondition rules out.
#[verifier::external_body]
pub fn key_slots_get(v: &ArrayVec<Index, FRAME_CAPACITY>, i: usize) -> (r: Index)
    requires
        i < key_slots(*v).len(),
    ensures
        r == key_slots(*v)[i as int],
{
    v[i]
}

/// Relies on ArrayVec::new: a new vector is empty.
#[verifier::external_body]
pub fn child_slots_new() -> (r: ArrayVec<FrameKey, FRAME_CAPACITY>)
    ensures
        child_slots(r).len() == 0,
{
    ArrayVec::new()
}

/// Relies on ArrayVec::len: the number of elements held.
#[verifier::external_body]
pub fn child_slots_len(v: &ArrayVec<FrameKey, FRAME_CAPACITY>) -> (r: usize)
    ensures
        r == child_slots(*v).len(),
{
    v.len()
}

/// Relies on ArrayVec::push: appends the element; panics only on a full
/// vector, which the precondition rules out.
#[verifier::external_body]
pub fn child_slots_push(v: &mut ArrayVec<FrameKey, FRAME_CAPACITY>, value: FrameKey)
    requires
        child_slots(*old(v)).len() < FRAME_CAPACITY,
    ensures
        child_slots(*final(v)) == child_slots(*old(v)).push(value),
{
    v.push(value)
}

/// Relies on indexing through ArrayVec's slice view; panics only out of
/// bounds, which the precondition rules out.
#[verifier::external_body]
pub fn child_slots_get(v: &ArrayVec<FrameKey, FRAME_CAPACITY>, i: usize) -> (r: FrameKey)
    requires
        i < child_slots(*v).len(),
    ensures
        r == child_slots(*v)[i as int],
{
    v[i]
}

} // verus!
