use vstd::prelude::*;

use crate::frame::{EitherFrame, FrameKey};

verus! {

/// Slot-allocated pool owning every frame of a point list.
///
/// A `FrameKey` is the index of a slot.  Slots are only appended or emptied,
/// never reused while the list is non-empty, so a key held inside a live
/// frame always resolves to the frame it was created for; `clear` recycles
/// all slots at once when the list becomes empty and no key survives.
pub struct Arena {
    pub slots: Vec<Option<EitherFrame>>,
}

impl Arena {
    /// Whether `k` currently names a frame.
    pub open spec fn contains(self, k: FrameKey) -> bool {
        k.index < self.slots@.len() && self.slots@[k.index as int] is Some
    }

    /// The frame named by `k`.
    pub open spec fn at(self, k: FrameKey) -> EitherFrame {
        self.slots@[k.index as int]->Some_0
    }

    pub fn new() -> (r: Self)
        ensures
            r.slots@.len() == 0,
            forall|k: FrameKey| !r.contains(k),
    {
        Arena { slots: Vec::new() }
    }

    /// Store a frame under a fresh key.
    pub fn insert(&mut self, frame: EitherFrame) -> (k: FrameKey)
        ensures
            !old(self).contains(k),
            final(self).contains(k),
            final(self).at(k) == frame,
            forall|k2: FrameKey|
                k2 != k ==> (final(self).contains(k2) <==> old(self).contains(k2)),
            forall|k2: FrameKey|
                old(self).contains(k2) ==> final(self).at(k2) == old(self).at(k2),
            k.index == old(self).slots@.len(),
            final(self).slots@.len() == old(self).slots@.len() + 1,
    {
        let index = self.slots.len();
        self.slots.push(Some(frame));
        FrameKey { index }
    }

    /// Read the frame named by `k`.
    pub fn get(&self, k: FrameKey) -> (r: &EitherFrame)
        requires
            self.contains(k),
        ensures
            *r == self.at(k),
    {
        let slot = &self.slots[k.index];
        slot.as_ref().unwrap()
    }

    /// Move the frame named by `k` out of the arena, leaving the slot empty.
    pub fn take(&mut self, k: FrameKey) -> (r: EitherFrame)
        requires
            old(self).contains(k),
        ensures
            r == old(self).at(k),
            !final(self).contains(k),
            forall|k2: FrameKey|
                k2 != k ==> (final(self).contains(k2) <==> old(self).contains(k2)),
            forall|k2: FrameKey|
                k2 != k && old(self).contains(k2) ==> final(self).at(k2) == old(self).at(k2),
            final(self).slots@.len() == old(self).slots@.len(),
    {
        let mut slot: Option<EitherFrame> = None;
        core::mem::swap(&mut slot, &mut self.slots[k.index]);
        slot.unwrap()
    }

    /// Store a frame under `k`, filling an empty slot or replacing the
    /// frame held there.
    pub fn set(&mut self, k: FrameKey, frame: EitherFrame)
        requires
            k.index < old(self).slots@.len(),
        ensures
            final(self).contains(k),
            final(self).at(k) == frame,
            forall|k2: FrameKey|
                k2 != k ==> (final(self).contains(k2) <==> old(self).contains(k2)),
            forall|k2: FrameKey|
                k2 != k && old(self).contains(k2) ==> final(self).at(k2) == old(self).at(k2),
            final(self).slots@.len() == old(self).slots@.len(),
    {
        self.slots[k.index] = Some(frame);
    }

    /// Drop every frame and recycle all slots.
    pub fn clear(&mut self)
        ensures
            final(self).slots@.len() == 0,
            forall|k: FrameKey| !final(self).contains(k),
    {
        self.slots.clear();
    }
}

} // verus!
