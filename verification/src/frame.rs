use vstd::prelude::*;

use arrayvec::ArrayVec;

use crate::distances::Distances;
use crate::index::Index;
use crate::storage::{
    child_slots, child_slots_get, child_slots_len, child_slots_new, child_slots_push, key_slots,
    key_slots_get, key_slots_len, key_slots_new, key_slots_push,
};
use crate::{DISTANCES_CAPACITY, FRAME_CAPACITY};

verus! {

/// Identifier of a frame in the list's frame arena.
#[derive(Clone, Copy, Debug, PartialEq, Eq, Structural)]
pub struct FrameKey {
    pub index: usize,
}

/// A slot inside a specific frame.
#[derive(Clone, Copy, Debug, PartialEq, Eq, Structural)]
pub struct IndexInFrame {
    pub frame: FrameKey,
    pub index: usize,
}

impl IndexInFrame {
    pub fn new(frame: FrameKey, index: usize) -> (r: Self)
        ensures
            r.frame == frame,
            r.index == index,
    {
        Self { frame, index }
    }
}

/// Where a frame sits: at the root of the list, or at a slot of a parent
/// meta frame.
#[derive(Clone, Copy, Debug, PartialEq, Eq, Structural)]
pub enum Embedding {
    InMetaFrame(IndexInFrame),
    InList,
}

/// A frame of the lowest level: up to `FRAME_CAPACITY` element handles and
/// the gaps between consecutive ones.
pub struct BaseFrame {
    pub distances: Distances,
    pub keys: ArrayVec<Index, FRAME_CAPACITY>,
    pub embedding: Embedding,
}

impl BaseFrame {
    /// The handles this frame holds, in slot order.
    pub open spec fn keys_seq(self) -> Seq<Index> {
        key_slots(self.keys)
    }

    /// A base frame is never empty, never over capacity, its distances
    /// array is zero beyond the last live gap (`n` keys have `n - 1` gaps
    /// between them), and every live gap is strictly positive: consecutive
    /// elements never share a position.
    pub open spec fn wf(self) -> bool {
        &&& self.distances.wf()
        &&& 1 <= self.keys_seq().len() <= FRAME_CAPACITY
        &&& forall|j: int|
            self.keys_seq().len() - 1 <= j < DISTANCES_CAPACITY ==> self.distances.gap(j) == 0
        &&& forall|j: int| 0 <= j < self.keys_seq().len() - 1 ==> self.distances.gap(j) > 0
    }

    /// A fresh frame holding a single handle; the handle sits at slot 0.
    pub fn new_with_key(key: Index, embedding: Embedding) -> (r: (Self, usize))
        ensures
            r.0.wf(),
            r.0.keys_seq() =~= seq![key],
            r.0.embedding == embedding,
            r.0.distances.total() == 0,
            r.1 == 0usize,
    {
        let mut keys = key_slots_new();
        key_slots_push(&mut keys, key);
        (Self { distances: Distances::new(), keys, embedding }, 0)
    }

    pub fn len(&self) -> (r: usize)
        ensures
            r == self.keys_seq().len(),
    {
        key_slots_len(&self.keys)
    }

    pub fn is_full(&self) -> (r: bool)
        ensures
            r == (self.keys_seq().len() == FRAME_CAPACITY),
    {
        key_slots_len(&self.keys) == FRAME_CAPACITY
    }

    /// Append a handle at distance `distance_from_last` after the current
    /// last handle.  The new handle's position inside the frame is the old
    /// span of the frame plus that distance.
    pub fn add_key(&mut self, key: Index, distance_from_last: u64) -> (slot: usize)
        requires
            old(self).wf(),
            distance_from_last > 0,
            old(self).keys_seq().len() < FRAME_CAPACITY,
            old(self).distances.total() + distance_from_last <= u64::MAX,
        ensures
            final(self).wf(),
            final(self).keys_seq() == old(self).keys_seq().push(key),
            slot == old(self).keys_seq().len(),
            final(self).embedding == old(self).embedding,
            final(self).distances.total() == old(self).distances.total() + distance_from_last,
            forall|j: int|
                0 <= j < old(self).keys_seq().len() - 1 ==> final(self).distances.gap(j) == old(
                    self,
                ).distances.gap(j),
            final(self).distances.gap(old(self).keys_seq().len() - 1) == distance_from_last,
            forall|j: int|
                0 <= j < old(self).keys_seq().len() ==> final(self).distances.prefix(j) == old(
                    self,
                ).distances.prefix(j),
            final(self).distances.prefix(slot as int) == old(self).distances.total()
                + distance_from_last,
    {
        let len = key_slots_len(&self.keys);
        self.distances.increase_distance(len - 1, distance_from_last);
        key_slots_push(&mut self.keys, key);
        len
    }

    pub fn first_key(&self) -> (r: Index)
        requires
            self.keys_seq().len() >= 1,
        ensures
            r == self.keys_seq()[0],
    {
        key_slots_get(&self.keys, 0)
    }

    pub fn last_key(&self) -> (r: Index)
        requires
            self.keys_seq().len() >= 1,
        ensures
            r == self.keys_seq().last(),
    {
        key_slots_get(&self.keys, key_slots_len(&self.keys) - 1)
    }
}

/// A frame of level one or higher: up to `FRAME_CAPACITY` child frames of
/// level exactly one below, and a gap for each child boundary covering the
/// child's span plus the distance to the next child.
pub struct MetaFrame {
    pub distances: Distances,
    pub frames: ArrayVec<FrameKey, FRAME_CAPACITY>,
    pub level: usize,
    pub embedding: Embedding,
}

impl MetaFrame {
    /// The child frame keys this frame holds, in slot order.
    pub open spec fn frames_seq(self) -> Seq<FrameKey> {
        child_slots(self.frames)
    }

    pub open spec fn wf(self) -> bool {
        &&& self.distances.wf()
        &&& 1 <= self.frames_seq().len() <= FRAME_CAPACITY
        &&& forall|j: int|
            self.frames_seq().len() - 1 <= j < DISTANCES_CAPACITY ==> self.distances.gap(j) == 0
        &&& self.level >= 1
    }

    /// A fresh frame holding a single child; the child sits at slot 0.
    pub fn new_with_frame(key: FrameKey, level: usize, embedding: Embedding) -> (r: (Self, usize))
        requires
            level >= 1,
        ensures
            r.0.wf(),
            r.0.frames_seq() =~= seq![key],
            r.0.embedding == embedding,
            r.0.level == level,
            r.0.distances.total() == 0,
            r.1 == 0usize,
    {
        let mut frames = child_slots_new();
        child_slots_push(&mut frames, key);
        (Self { distances: Distances::new(), frames, level, embedding }, 0)
    }

    pub fn len(&self) -> (r: usize)
        ensures
            r == self.frames_seq().len(),
    {
        child_slots_len(&self.frames)
    }

    pub fn is_full(&self) -> (r: bool)
        ensures
            r == (self.frames_seq().len() == FRAME_CAPACITY),
    {
        child_slots_len(&self.frames) == FRAME_CAPACITY
    }

    /// Append a child frame whose span begins `distance_from_last` after the
    /// end of the current last child; the recorded boundary gap must cover
    /// the previous child's span plus the distance between them, which the
    /// caller computes.
    pub fn add_frame(&mut self, key: FrameKey, distance_from_last: u64) -> (slot: usize)
        requires
            old(self).wf(),
            distance_from_last > 0,
            old(self).frames_seq().len() < FRAME_CAPACITY,
            old(self).distances.total() + distance_from_last <= u64::MAX,
        ensures
            final(self).wf(),
            final(self).frames_seq() == old(self).frames_seq().push(key),
            slot == old(self).frames_seq().len(),
            final(self).embedding == old(self).embedding,
            final(self).level == old(self).level,
            final(self).distances.total() == old(self).distances.total() + distance_from_last,
            forall|j: int|
                0 <= j < old(self).frames_seq().len() - 1 ==> final(self).distances.gap(j) == old(
                    self,
                ).distances.gap(j),
            final(self).distances.gap(old(self).frames_seq().len() - 1) == distance_from_last,
            forall|j: int|
                0 <= j < old(self).frames_seq().len() ==> final(self).distances.prefix(j) == old(
                    self,
                ).distances.prefix(j),
            final(self).distances.prefix(slot as int) == old(self).distances.total()
                + distance_from_last,
    {
        let len = child_slots_len(&self.frames);
        self.distances.increase_distance(len - 1, distance_from_last);
        child_slots_push(&mut self.frames, key);
        len
    }

    pub fn first_frame(&self) -> (r: FrameKey)
        requires
            self.frames_seq().len() >= 1,
        ensures
            r == self.frames_seq()[0],
    {
        child_slots_get(&self.frames, 0)
    }

    pub fn last_frame(&self) -> (r: FrameKey)
        requires
            self.frames_seq().len() >= 1,
        ensures
            r == self.frames_seq().last(),
    {
        child_slots_get(&self.frames, child_slots_len(&self.frames) - 1)
    }
}

/// A frame of either kind, as stored in the arena.
pub enum EitherFrame {
    Meta(MetaFrame),
    Base(BaseFrame),
}

impl EitherFrame {
    pub open spec fn is_meta(self) -> bool {
        self is Meta
    }

    pub open spec fn is_base(self) -> bool {
        self is Base
    }

    /// Number of children: handles of a base frame, child frames of a meta
    /// frame.
    pub open spec fn slots_len(self) -> int {
        match self {
            EitherFrame::Meta(frame) => frame.frames_seq().len() as int,
            EitherFrame::Base(frame) => frame.keys_seq().len() as int,
        }
    }

    pub open spec fn dists(self) -> Distances {
        match self {
            EitherFrame::Meta(frame) => frame.distances,
            EitherFrame::Base(frame) => frame.distances,
        }
    }

    pub open spec fn emb(self) -> Embedding {
        match self {
            EitherFrame::Meta(frame) => frame.embedding,
            EitherFrame::Base(frame) => frame.embedding,
        }
    }

    /// Base frames are level 0; a meta frame records its own level.
    pub open spec fn lvl(self) -> int {
        match self {
            EitherFrame::Meta(frame) => frame.level as int,
            EitherFrame::Base(frame) => 0,
        }
    }

    pub open spec fn wf(self) -> bool {
        match self {
            EitherFrame::Meta(frame) => frame.wf(),
            EitherFrame::Base(frame) => frame.wf(),
        }
    }

    /// The same frame with its embedding replaced.
    pub open spec fn with_emb(self, embedding: Embedding) -> EitherFrame {
        match self {
            EitherFrame::Meta(frame) => EitherFrame::Meta(MetaFrame { embedding, ..frame }),
            EitherFrame::Base(frame) => EitherFrame::Base(BaseFrame { embedding, ..frame }),
        }
    }

    pub fn len(&self) -> (r: usize)
        ensures
            r == self.slots_len(),
    {
        match self {
            EitherFrame::Meta(frame) => frame.len(),
            EitherFrame::Base(frame) => frame.len(),
        }
    }

    pub fn is_full(&self) -> (r: bool)
        ensures
            r == (self.slots_len() == FRAME_CAPACITY),
    {
        match self {
            EitherFrame::Meta(frame) => frame.is_full(),
            EitherFrame::Base(frame) => frame.is_full(),
        }
    }

    pub fn level(&self) -> (r: usize)
        ensures
            r == self.lvl(),
    {
        match self {
            EitherFrame::Meta(frame) => frame.level,
            EitherFrame::Base(_) => 0,
        }
    }

    pub fn embedding(&self) -> (r: Embedding)
        ensures
            r == self.emb(),
    {
        match self {
            EitherFrame::Meta(frame) => frame.embedding,
            EitherFrame::Base(frame) => frame.embedding,
        }
    }

    pub fn embed(&mut self, embedding: Embedding)
        ensures
            *final(self) == old(self).with_emb(embedding),
    {
        match self {
            EitherFrame::Meta(frame) => frame.embedding = embedding,
            EitherFrame::Base(frame) => frame.embedding = embedding,
        }
    }

    /// A copy of the frame's distances array.
    pub fn distances(&self) -> (r: Distances)
        ensures
            r == self.dists(),
    {
        match self {
            EitherFrame::Meta(frame) => frame.distances,
            EitherFrame::Base(frame) => frame.distances,
        }
    }
}

} // verus!
