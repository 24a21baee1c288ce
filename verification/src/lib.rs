use vstd::prelude::*;

pub mod arena;
pub mod distances;
pub mod frame;
pub mod index;
pub mod point_list;
pub mod storage;

verus! {

/// Depth of the Fenwick ladder inside every frame's distances array.
pub const DISTANCES_DEPTH: usize = 3;

/// Number of gap slots in a distances array: always two to the power
/// `DISTANCES_DEPTH - 1`, written as a literal because the verifier does not
/// evaluate shift expressions in constants.
pub const DISTANCES_CAPACITY: usize = 4;

/// Greatest number of children (handles or child frames) a frame can hold:
/// one more endpoint than there are gaps.
pub const FRAME_CAPACITY: usize = DISTANCES_CAPACITY + 1;

} // verus!
