use vstd::prelude::*;

verus! {

/// Persistent handle for one element of a point list.
///
/// A handle is issued by `add_element` and stays valid while the element is
/// in the list, however the frames rebalance underneath it.  It is a plain
/// index into the list's handle table; the table entry is cleared when the
/// element is removed, so a stale handle never aliases a live one.
#[derive(Clone, Copy, Debug, PartialEq, Eq, Structural)]
pub struct Index {
    pub index: usize,
}

impl Index {
    pub fn new(index: usize) -> (r: Self)
        ensures
            r.index == index,
    {
        Self { index }
    }
}

} // verus!
