use vstd::prelude::*;

use crate::arena::Arena;
use crate::frame::{EitherFrame, Embedding, FrameKey, IndexInFrame};
use crate::index::Index;

pub mod add_element;

verus! {

/// How many entries of a handle table are live.
pub open spec fn count_valid(s: Seq<Option<IndexInFrame>>) -> int
    decreases s.len(),
{
    if s.len() == 0 {
        0
    } else {
        count_valid(s.drop_last()) + if s.last() is Some {
            1int
        } else {
            0int
        }
    }
}

/// An ordered container of elements on a one-dimensional axis.
///
/// Every element has an absolute scalar position; elements are appended at
/// the tail with a relative distance from the previous element, and each one
/// gets a stable handle.  Internally the elements live in a tree of
/// fixed-capacity frames owned by an arena: base frames hold handles and the
/// gaps between consecutive elements, meta frames hold child frames and the
/// gaps spanning them, so a position is recovered in time logarithmic in the
/// number of elements by summing prefix sums along the embedding chain.
pub struct PointList<E> {
    pub frames: Arena,
    pub root: Option<FrameKey>,
    pub start: u64,
    pub end: u64,
    pub len: usize,
    pub point_slots: Vec<Option<IndexInFrame>>,
    pub elements: Vec<Option<E>>,
}

impl<E> PointList<E> {
    pub open spec fn root_key(self) -> FrameKey {
        self.root->Some_0
    }

    /// The level of the root frame; every frame's level is bounded by it.
    pub open spec fn root_lvl(self) -> int {
        self.frames.at(self.root_key()).lvl()
    }

    pub open spec fn lvl_of(self, k: FrameKey) -> int {
        if self.frames.contains(k) {
            self.frames.at(k).lvl()
        } else {
            0
        }
    }

    /// The distance from the first to the last element held below frame
    /// `k`: the frame's own gap total plus, for a meta frame, the span of
    /// its last child, whose extent its own gaps do not cover.
    pub open spec fn span_of(self, k: FrameKey) -> int
        decreases self.lvl_of(k),
    {
        if !self.frames.contains(k) {
            0
        } else {
            match self.frames.at(k) {
                EitherFrame::Base(b) => b.distances.total(),
                EitherFrame::Meta(m) => m.distances.total() + {
                    let c = m.frames_seq().last();
                    if m.frames_seq().len() >= 1 && self.frames.contains(c) && self.lvl_of(c)
                        < self.lvl_of(k) {
                        self.span_of(c)
                    } else {
                        0
                    }
                },
            }
        }
    }

    /// The offset of frame `k`'s first element from the first element of
    /// the whole list, obtained by climbing the embedding chain and summing
    /// each parent's prefix sum at the entered slot.  `fuel` bounds the
    /// climb; with fuel equal to the chain length the value is exact.
    pub open spec fn rel_of(self, k: FrameKey, fuel: nat) -> int
        decreases fuel,
    {
        if !self.frames.contains(k) {
            0
        } else {
            match self.frames.at(k).emb() {
                Embedding::InList => 0,
                Embedding::InMetaFrame(iif) => if fuel > 0 {
                    self.rel_of(iif.frame, (fuel - 1) as nat) + self.frames.at(
                        iif.frame,
                    ).dists().prefix(iif.index as int)
                } else {
                    0
                },
            }
        }
    }

    /// The exact climb length from frame `k` to the root.
    pub open spec fn chain_fuel(self, k: FrameKey) -> nat {
        (self.root_lvl() - self.lvl_of(k)) as nat
    }

    /// The offset of frame `k`'s first element from the list's first
    /// element.
    pub open spec fn frame_offset(self, k: FrameKey) -> int {
        self.rel_of(k, self.chain_fuel(k))
    }

    /// Whether `key` is the handle of an element currently in the list.
    pub open spec fn valid(self, key: Index) -> bool {
        key.index < self.point_slots@.len() && self.point_slots@[key.index as int] is Some
    }

    /// The frame and slot holding the element of a valid handle.
    pub open spec fn loc_of(self, key: Index) -> IndexInFrame {
        self.point_slots@[key.index as int]->Some_0
    }

    /// The absolute position of the element of a valid handle: the list
    /// start, plus the offset of its base frame, plus its prefix sum inside
    /// that frame.
    pub open spec fn pos_of(self, key: Index) -> int {
        let l = self.loc_of(key);
        self.start + self.frame_offset(l.frame) + self.frames.at(l.frame).dists().prefix(
            l.index as int,
        )
    }

    /// The handle of the leftmost element below frame `k`.
    pub open spec fn leftmost(self, k: FrameKey) -> Index
        decreases self.lvl_of(k),
    {
        if !self.frames.contains(k) {
            Index { index: 0 }
        } else {
            match self.frames.at(k) {
                EitherFrame::Base(b) => b.keys_seq()[0],
                EitherFrame::Meta(m) => {
                    let c = m.frames_seq()[0];
                    if m.frames_seq().len() >= 1 && self.frames.contains(c) && self.lvl_of(c)
                        < self.lvl_of(k) {
                        self.leftmost(c)
                    } else {
                        Index { index: 0 }
                    }
                },
            }
        }
    }

    /// The handle of the rightmost element below frame `k`.
    pub open spec fn rightmost(self, k: FrameKey) -> Index
        decreases self.lvl_of(k),
    {
        if !self.frames.contains(k) {
            Index { index: 0 }
        } else {
            match self.frames.at(k) {
                EitherFrame::Base(b) => b.keys_seq().last(),
                EitherFrame::Meta(m) => {
                    let c = m.frames_seq().last();
                    if m.frames_seq().len() >= 1 && self.frames.contains(c) && self.lvl_of(c)
                        < self.lvl_of(k) {
                        self.rightmost(c)
                    } else {
                        Index { index: 0 }
                    }
                },
            }
        }
    }

    /// Frame-tree consistency at one frame: the frame itself is
    /// well-formed, its level does not exceed the root's, and its embedding
    /// names the root or resolves to the parent slot that holds its key,
    /// one level up.
    pub open spec fn frame_ok(self, k: FrameKey) -> bool {
        let f = self.frames.at(k);
        &&& f.wf()
        &&& f.lvl() <= self.root_lvl()
        &&& match f.emb() {
            Embedding::InList => self.root == Some(k),
            Embedding::InMetaFrame(iif) => {
                &&& self.frames.contains(iif.frame)
                &&& self.frames.at(iif.frame) is Meta
                &&& iif.index < self.frames.at(iif.frame).slots_len()
                &&& self.frames.at(iif.frame)->Meta_0.frames_seq()[iif.index as int] == k
                &&& self.frames.at(iif.frame).lvl() == f.lvl() + 1
            },
        }
        &&& self.frames.at(k) is Meta ==> self.meta_ok(k)
    }

    /// Consistency of one child link of a meta frame: the child exists one
    /// level below, points back at its slot, and every live gap except the
    /// last strictly exceeds the span of the child it crosses — there is a
    /// positive distance between consecutive children.
    pub open spec fn child_ok(self, k: FrameKey, j: int) -> bool {
        let m = self.frames.at(k)->Meta_0;
        let c = m.frames_seq()[j];
        &&& self.frames.contains(c)
        &&& self.frames.at(c).lvl() == m.level - 1
        &&& self.frames.at(c).emb() == Embedding::InMetaFrame(
            IndexInFrame { frame: k, index: j as usize },
        )
        &&& (j < m.frames_seq().len() - 1 ==> m.distances.gap(j) > self.span_of(c))
    }

    pub open spec fn meta_ok(self, k: FrameKey) -> bool {
        forall|j: int|
            0 <= j < self.frames.at(k)->Meta_0.frames_seq().len() ==> #[trigger] self.child_ok(
                k,
                j,
            )
    }

    pub open spec fn frames_wf(self) -> bool {
        forall|k: FrameKey| #[trigger] self.frames.contains(k) ==> self.frame_ok(k)
    }

    /// A live handle-table entry resolves to a base frame slot that holds
    /// this very handle.
    pub open spec fn handle_ok(self, h: int) -> bool {
        let l = self.point_slots@[h]->Some_0;
        &&& self.frames.contains(l.frame)
        &&& self.frames.at(l.frame) is Base
        &&& l.index < self.frames.at(l.frame).slots_len()
        &&& self.frames.at(l.frame)->Base_0.keys_seq()[l.index as int] == Index {
            index: h as usize,
        }
    }

    pub open spec fn points_wf(self) -> bool {
        &&& self.point_slots@.len() == self.elements@.len()
        &&& forall|h: int|
            0 <= h < self.point_slots@.len() ==> (#[trigger] self.point_slots@[h] is Some
                <==> self.elements@[h] is Some)
        &&& forall|h: int|
            0 <= h < self.point_slots@.len() && #[trigger] self.point_slots@[h] is Some
                ==> self.handle_ok(h)
    }

    /// Every handle held in a base frame is live and maps back to exactly
    /// that frame and slot.
    pub open spec fn key_ok(self, k: FrameKey, j: int) -> bool {
        let key = self.frames.at(k)->Base_0.keys_seq()[j];
        &&& key.index < self.point_slots@.len()
        &&& self.point_slots@[key.index as int] == Some(
            IndexInFrame { frame: k, index: j as usize },
        )
    }

    pub open spec fn keys_wf(self) -> bool {
        forall|k: FrameKey, j: int|
            self.frames.contains(k) && self.frames.at(k) is Base && 0 <= j < self.frames.at(
                k,
            ).slots_len() ==> #[trigger] self.key_ok(k, j)
    }

    /// The list invariant, holding at every public API boundary.
    pub open spec fn wf(self) -> bool {
        &&& self.frames_wf()
        &&& self.points_wf()
        &&& self.keys_wf()
        &&& self.len == count_valid(self.point_slots@)
        &&& match self.root {
            None => {
                &&& self.frames.slots@.len() == 0
                &&& self.len == 0
                &&& self.start == 0
                &&& self.end == 0
            },
            Some(r) => {
                &&& self.frames.contains(r)
                &&& self.frames.at(r).emb() == Embedding::InList
                &&& self.len > 0
                &&& self.end == self.start + self.span_of(r)
                &&& self.frames.at(r).lvl() < self.frames.slots@.len()
            },
        }
    }

    /// An empty list.
    pub fn new() -> (r: Self)
        ensures
            r.wf(),
            r.len == 0,
            r.start == 0,
            r.end == 0,
            r.root is None,
            r.point_slots@.len() == 0,
            forall|key: Index| !r.valid(key),
    {
        PointList {
            frames: Arena::new(),
            root: None,
            start: 0,
            end: 0,
            len: 0,
            point_slots: Vec::new(),
            elements: Vec::new(),
        }
    }

    /// The number of elements stored in this list.
    ///
    /// Not to be confused with [`Self::length`].
    pub fn len(&self) -> (r: usize)
        ensures
            r == self.len,
    {
        self.len
    }

    pub fn is_empty(&self) -> (r: bool)
        ensures
            r == (self.len == 0),
    {
        self.len == 0
    }

    /// The position of the first element; zero for an empty list.
    pub fn start(&self) -> (r: u64)
        ensures
            r == self.start,
    {
        self.start
    }

    /// The position of the last element; zero for an empty list.
    pub fn end(&self) -> (r: u64)
        ensures
            r == self.end,
    {
        self.end
    }

    /// The distance between this list's first and last elements.
    /// Zero for empty lists.
    ///
    /// Not to be confused with [`Self::len`].
    pub fn length(&self) -> (r: u64)
        requires
            self.wf(),
        ensures
            r == self.end - self.start,
    {
        proof {
            if self.root is Some {
                self.lemma_span_nonneg(self.root_key());
            }
        }
        self.end - self.start
    }

    /// The element a handle refers to, if it is still in the list.
    pub fn element(&self, key: Index) -> (r: Option<&E>)
        requires
            self.wf(),
        ensures
            match r {
                Some(e) => self.valid(key) && self.elements@[key.index as int] == Some(*e),
                None => !self.valid(key),
            },
    {
        if key.index < self.elements.len() {
            self.elements[key.index].as_ref()
        } else {
            None
        }
    }

    /// The absolute position of the element a handle refers to, or nothing
    /// for a handle no longer in the list.  Climbs the embedding chain from
    /// the element's base frame, summing each frame's prefix sum at the slot
    /// where the chain enters it, and finally adds the list start.
    pub fn position(&self, key: Index) -> (r: Option<u64>)
        requires
            self.wf(),
        ensures
            match r {
                Some(p) => self.valid(key) && p == self.pos_of(key),
                None => !self.valid(key),
            },
    {
        if key.index >= self.point_slots.len() {
            return None;
        }
        let loc = match &self.point_slots[key.index] {
            Some(l) => *l,
            None => {
                return None;
            },
        };
        proof {
            assert(self.handle_ok(key.index as int));
            self.lemma_pos_bounds(key);
            self.lemma_offset_span(loc.frame);
        }
        let mut cur = loc.frame;
        let f = self.frames.get(cur);
        let mut pos: u64 = self.start + f.distances().position(loc.index);
        let mut emb = f.embedding();
        loop
            invariant
                self.wf(),
                self.frames.contains(cur),
                emb == self.frames.at(cur).emb(),
                pos as int == self.pos_of(key) - self.rel_of(cur, self.chain_fuel(cur)),
                self.pos_of(key) <= self.end,
                self.root is Some,
            ensures
                emb is InList,
                pos as int == self.pos_of(key),
            decreases self.chain_fuel(cur),
        {
            match emb {
                Embedding::InList => {
                    proof {
                        assert(self.rel_of(cur, self.chain_fuel(cur)) == 0);
                    }
                    break ;
                },
                Embedding::InMetaFrame(up) => {
                    proof {
                        assert(self.frame_ok(cur));
                        assert(self.frame_ok(up.frame));
                        assert(self.chain_fuel(cur) >= 1);
                        assert(self.chain_fuel(up.frame) == self.chain_fuel(cur) - 1);
                        self.lemma_offset_span(up.frame);
                        assert(self.rel_of(cur, self.chain_fuel(cur)) == self.rel_of(
                            up.frame,
                            self.chain_fuel(up.frame),
                        ) + self.frames.at(up.frame).dists().prefix(up.index as int));
                    }
                    let pf = self.frames.get(up.frame);
                    pos = pos + pf.distances().position(up.index);
                    emb = pf.embedding();
                    cur = up.frame;
                },
            }
        }
        Some(pos)
    }

    /// The handle of the element at the lowest position, descending the
    /// chain of first children.
    fn first_key_of(&self, frame_key: FrameKey) -> (r: Index)
        requires
            self.wf(),
            self.frames.contains(frame_key),
        ensures
            r == self.leftmost(frame_key),
        decreases self.lvl_of(frame_key),
    {
        proof {
            assert(self.frame_ok(frame_key));
            if self.frames.at(frame_key) is Meta {
                assert(self.child_ok(frame_key, 0));
            }
        }
        match self.frames.get(frame_key) {
            EitherFrame::Meta(frame) => self.first_key_of(frame.first_frame()),
            EitherFrame::Base(frame) => frame.first_key(),
        }
    }

    /// The handle of the element at the highest position, descending the
    /// chain of last children.
    fn last_key_of(&self, frame_key: FrameKey) -> (r: Index)
        requires
            self.wf(),
            self.frames.contains(frame_key),
        ensures
            r == self.rightmost(frame_key),
        decreases self.lvl_of(frame_key),
    {
        proof {
            assert(self.frame_ok(frame_key));
            if self.frames.at(frame_key) is Meta {
                let n = self.frames.at(frame_key)->Meta_0.frames_seq().len() as int;
                assert(self.child_ok(frame_key, n - 1));
            }
        }
        match self.frames.get(frame_key) {
            EitherFrame::Meta(frame) => self.last_key_of(frame.last_frame()),
            EitherFrame::Base(frame) => frame.last_key(),
        }
    }

    /// The handle of the first element, if any.
    pub fn first_key(&self) -> (r: Option<Index>)
        requires
            self.wf(),
        ensures
            r == match self.root {
                Some(rt) => Some(self.leftmost(rt)),
                None => None::<Index>,
            },
    {
        match self.root {
            Some(root) => Some(self.first_key_of(root)),
            None => None,
        }
    }

    /// The handle of the last element, if any.
    pub fn last_key(&self) -> (r: Option<Index>)
        requires
            self.wf(),
        ensures
            r == match self.root {
                Some(rt) => Some(self.rightmost(rt)),
                None => None::<Index>,
            },
    {
        match self.root {
            Some(root) => Some(self.last_key_of(root)),
            None => None,
        }
    }

    /// A frame's offset is non-negative, and offset plus span stays within
    /// the span of the root: positions computed by climbing never leave the
    /// list's extent.
    pub proof fn lemma_offset_span(self, k: FrameKey)
        requires
            self.frames_wf(),
            self.frames.contains(k),
            self.root is Some,
        ensures
            0 <= self.frame_offset(k),
            self.frame_offset(k) + self.span_of(k) <= self.span_of(self.root_key()),
        decreases self.chain_fuel(k),
    {
        assert(self.frame_ok(k));
        match self.frames.at(k).emb() {
            Embedding::InList => {
                assert(self.root_key() == k);
            },
            Embedding::InMetaFrame(iif) => {
                let p = iif.frame;
                let i = iif.index as int;
                assert(self.frame_ok(p));
                let m = self.frames.at(p)->Meta_0;
                let n = m.frames_seq().len() as int;
                assert(self.child_ok(p, i));
                assert(self.chain_fuel(k) >= 1);
                assert(self.chain_fuel(p) == self.chain_fuel(k) - 1);
                self.lemma_offset_span(p);
                self.lemma_span_nonneg(k);
                if i < n - 1 {
                    assert(self.child_ok(p, n - 1));
                    self.lemma_span_nonneg(m.frames_seq()[n - 1]);
                    assert(m.distances.prefix(i) + m.distances.gap(i) <= m.distances.total());
                    assert(self.span_of(p) == m.distances.total() + self.span_of(
                        m.frames_seq()[n - 1],
                    ));
                } else {
                    assert(m.distances.prefix(i) == m.distances.total());
                    assert(self.span_of(p) == m.distances.total() + self.span_of(k));
                }
            },
        }
    }

    /// The absolute position of a valid handle never exceeds the list end.
    pub proof fn lemma_pos_bounds(self, key: Index)
        requires
            self.wf(),
            self.valid(key),
        ensures
            self.start <= self.pos_of(key) <= self.end,
    {
        let l = self.loc_of(key);
        assert(self.handle_ok(key.index as int));
        assert(self.frame_ok(l.frame));
        self.lemma_offset_span(l.frame);
        let b = self.frames.at(l.frame)->Base_0;
        assert(b.distances.prefix(l.index as int) >= 0);
        assert(b.distances.prefix(l.index as int) <= b.distances.total());
    }

    /// Replace the element a handle refers to, leaving its position and
    /// every other element untouched; reports whether the handle was live.
    pub fn set_element(&mut self, key: Index, value: E) -> (r: bool)
        requires
            old(self).wf(),
        ensures
            final(self).wf(),
            r == old(self).valid(key),
            final(self).frames == old(self).frames,
            final(self).root == old(self).root,
            final(self).start == old(self).start,
            final(self).end == old(self).end,
            final(self).len == old(self).len,
            final(self).point_slots@ == old(self).point_slots@,
            old(self).valid(key) ==> final(self).elements@ == old(self).elements@.update(
                key.index as int,
                Some(value),
            ),
            !old(self).valid(key) ==> *final(self) == *old(self),
            forall|k2: Index| #[trigger] final(self).valid(k2) == old(self).valid(k2),
            forall|k2: Index|
                old(self).valid(k2) ==> final(self).pos_of(k2) == old(self).pos_of(k2),
    {
        if key.index >= self.elements.len() {
            return false;
        }
        if self.elements[key.index].is_some() {
            proof {
                assert(old(self).valid(key));
            }
            self.elements[key.index] = Some(value);
            proof {
                let l1 = *old(self);
                let l2 = *self;
                assert(l2.points_wf()) by {
                    assert forall|h: int|
                        0 <= h < l2.point_slots@.len() && #[trigger] l2.point_slots@[h] is Some
                        implies l2.handle_ok(h) by {
                        assert(l1.handle_ok(h));
                    }
                }
                assert forall|k: FrameKey| #[trigger] l2.frames.contains(k) implies l2.frame_ok(
                    k,
                ) by {
                    assert(l1.frame_ok(k));
                    if l2.frames.at(k) is Meta {
                        assert forall|j: int|
                            0 <= j < l2.frames.at(k)->Meta_0.frames_seq().len() implies
                            #[trigger] l2.child_ok(k, j) by {
                            assert(l1.child_ok(k, j));
                            Self::lemma_span_frames_eq(
                                l1,
                                l2,
                                l1.frames.at(k)->Meta_0.frames_seq()[j],
                            );
                        }
                    }
                }
                assert(l2.keys_wf()) by {
                    assert forall|k: FrameKey, j: int|
                        l2.frames.contains(k) && l2.frames.at(k) is Base && 0 <= j < l2.frames.at(
                            k,
                        ).slots_len() implies #[trigger] l2.key_ok(k, j) by {
                        assert(l1.key_ok(k, j));
                    }
                }
                Self::lemma_span_frames_eq(l1, l2, l1.root_key());
                assert(l2.wf());
                assert forall|k2: Index| l1.valid(k2) implies l2.pos_of(k2) == l1.pos_of(k2) by {
                    assert(l1.handle_ok(k2.index as int));
                    Self::lemma_rel_same(l1, l2, l1.loc_of(k2).frame);
                }
            }
            true
        } else {
            proof {
                assert(!old(self).valid(key));
            }
            false
        }
    }

    /// The leftmost handle below `k` is live, sits at slot 0 of a base
    /// frame, and that frame has the same offset as `k` itself: the descent
    /// to it only crosses slots with a zero prefix sum.
    proof fn lemma_leftmost_loc(self, k: FrameKey)
        requires
            self.wf(),
            self.frames.contains(k),
        ensures
            self.valid(self.leftmost(k)),
            self.loc_of(self.leftmost(k)).index == 0,
            self.frames.contains(self.loc_of(self.leftmost(k)).frame),
            self.frame_offset(self.loc_of(self.leftmost(k)).frame) == self.frame_offset(k),
        decreases self.lvl_of(k),
    {
        assert(self.frame_ok(k));
        match self.frames.at(k) {
            EitherFrame::Base(b) => {
                assert(self.key_ok(k, 0));
            },
            EitherFrame::Meta(m) => {
                assert(self.child_ok(k, 0));
                let c = m.frames_seq()[0];
                self.lemma_leftmost_loc(c);
                assert(self.frame_offset(c) == self.frame_offset(k)) by {
                    assert(self.frame_ok(c));
                    assert(self.chain_fuel(c) >= 1);
                    assert(self.chain_fuel(k) == self.chain_fuel(c) - 1);
                    assert(self.frames.at(k).dists().prefix(0) == 0);
                }
            },
        }
    }

    /// The rightmost handle below `k` is live, sits at the last slot of a
    /// base frame, and offset plus span is invariant along the descent: the
    /// last element of `k`'s subtree sits exactly at its far end.
    proof fn lemma_rightmost_loc(self, k: FrameKey)
        requires
            self.wf(),
            self.frames.contains(k),
        ensures
            self.valid(self.rightmost(k)),
            ({
                let l = self.loc_of(self.rightmost(k));
                &&& self.frames.contains(l.frame)
                &&& self.frames.at(l.frame) is Base
                &&& l.index + 1 == self.frames.at(l.frame).slots_len()
                &&& self.frame_offset(l.frame) + self.span_of(l.frame) == self.frame_offset(k)
                    + self.span_of(k)
            }),
        decreases self.lvl_of(k),
    {
        assert(self.frame_ok(k));
        match self.frames.at(k) {
            EitherFrame::Base(b) => {
                let n = b.keys_seq().len() as int;
                assert(self.key_ok(k, n - 1));
            },
            EitherFrame::Meta(m) => {
                let n = m.frames_seq().len() as int;
                assert(self.child_ok(k, n - 1));
                let c = m.frames_seq()[n - 1];
                self.lemma_rightmost_loc(c);
                assert(self.frame_offset(c) == self.frame_offset(k) + m.distances.total()) by {
                    assert(self.frame_ok(c));
                    assert(self.chain_fuel(c) >= 1);
                    assert(self.chain_fuel(k) == self.chain_fuel(c) - 1);
                    assert(m.distances.prefix(n - 1) == m.distances.total());
                }
                assert(self.span_of(k) == m.distances.total() + self.span_of(c));
            },
        }
    }

    /// The first element of a non-empty list is live and sits exactly at
    /// the list start.
    pub proof fn lemma_first_key_at_start(self)
        requires
            self.wf(),
            self.root is Some,
        ensures
            self.valid(self.leftmost(self.root_key())),
            self.pos_of(self.leftmost(self.root_key())) == self.start,
    {
        self.lemma_leftmost_loc(self.root_key());
        assert(self.frame_offset(self.root_key()) == 0);
        let l = self.loc_of(self.leftmost(self.root_key()));
        assert(self.frames.at(l.frame).dists().prefix(0) == 0);
    }

    /// The last element of a non-empty list is live and sits exactly at the
    /// list end.
    pub proof fn lemma_last_key_at_end(self)
        requires
            self.wf(),
            self.root is Some,
        ensures
            self.valid(self.rightmost(self.root_key())),
            self.pos_of(self.rightmost(self.root_key())) == self.end,
    {
        self.lemma_rightmost_loc(self.root_key());
        assert(self.frame_offset(self.root_key()) == 0);
        let l = self.loc_of(self.rightmost(self.root_key()));
        assert(self.frame_ok(l.frame));
        let b = self.frames.at(l.frame)->Base_0;
        assert(b.distances.prefix(l.index as int) == b.distances.total());
    }

    /// A frame with zero offset is reached from the root by first
    /// children only, so its leftmost element is the list's first.
    proof fn lemma_offset_zero_leftmost(self, k: FrameKey)
        requires
            self.wf(),
            self.frames.contains(k),
        ensures
            self.frame_offset(k) > 0 || self.leftmost(self.root_key()) == self.leftmost(k),
            self.frame_offset(k) >= 0,
        decreases self.chain_fuel(k),
    {
        assert(self.frame_ok(k));
        match self.frames.at(k).emb() {
            Embedding::InList => {
                assert(self.root_key() == k);
                assert(self.frame_offset(k) == 0);
            },
            Embedding::InMetaFrame(iif) => {
                let p = iif.frame;
                let i = iif.index as int;
                assert(self.frame_ok(p));
                assert(self.chain_fuel(k) >= 1);
                assert(self.chain_fuel(p) == self.chain_fuel(k) - 1);
                self.lemma_offset_zero_leftmost(p);
                let m = self.frames.at(p)->Meta_0;
                if i > 0 {
                    assert(self.child_ok(p, 0));
                    self.lemma_span_nonneg(m.frames_seq()[0]);
                    assert(m.distances.prefix(i) >= m.distances.gap(0));
                } else {
                    assert(m.distances.prefix(0) == 0);
                    assert(self.child_ok(p, 0));
                    assert(self.lvl_of(k) < self.lvl_of(p));
                }
            },
        }
    }

    /// A frame whose offset plus span reaches the root's span is reached
    /// from the root by last children only, so its rightmost element is the
    /// list's last.
    proof fn lemma_offset_span_rightmost(self, k: FrameKey)
        requires
            self.wf(),
            self.frames.contains(k),
        ensures
            self.frame_offset(k) + self.span_of(k) < self.span_of(self.root_key())
                || self.rightmost(self.root_key()) == self.rightmost(k),
        decreases self.chain_fuel(k),
    {
        assert(self.frame_ok(k));
        match self.frames.at(k).emb() {
            Embedding::InList => {
                assert(self.root_key() == k);
            },
            Embedding::InMetaFrame(iif) => {
                let p = iif.frame;
                let i = iif.index as int;
                assert(self.frame_ok(p));
                assert(self.chain_fuel(k) >= 1);
                assert(self.chain_fuel(p) == self.chain_fuel(k) - 1);
                self.lemma_offset_span_rightmost(p);
                let m = self.frames.at(p)->Meta_0;
                let n = m.frames_seq().len() as int;
                assert(self.child_ok(p, i));
                if i == n - 1 {
                    assert(m.distances.prefix(n - 1) == m.distances.total());
                    assert(self.span_of(p) == m.distances.total() + self.span_of(k));
                    assert(self.lvl_of(k) < self.lvl_of(p));
                } else {
                    assert(m.distances.gap(i) > self.span_of(k));
                    assert(m.distances.prefix(i) + m.distances.gap(i) <= m.distances.total());
                    assert(self.child_ok(p, n - 1));
                    self.lemma_span_nonneg(m.frames_seq()[n - 1]);
                    assert(self.span_of(p) == m.distances.total() + self.span_of(
                        m.frames_seq()[n - 1],
                    ));
                    self.lemma_offset_span(p);
                }
            },
        }
    }

    /// Every live element other than the first sits strictly after the
    /// list start: the first key is the unique minimum.
    pub proof fn lemma_first_key_minimal(self, h: Index)
        requires
            self.wf(),
            self.root is Some,
            self.valid(h),
            h != self.leftmost(self.root_key()),
        ensures
            self.pos_of(h) > self.start,
    {
        assert(self.handle_ok(h.index as int));
        let l = self.loc_of(h);
        assert(self.frame_ok(l.frame));
        let b = self.frames.at(l.frame)->Base_0;
        self.lemma_offset_zero_leftmost(l.frame);
        if l.index == 0 {
            assert(self.leftmost(l.frame) == b.keys_seq()[0]);
            assert(b.keys_seq()[0] == h);
            assert(self.frame_offset(l.frame) > 0);
            assert(b.distances.prefix(0) == 0);
        } else {
            assert(b.distances.gap(0) > 0);
            assert(b.distances.prefix(l.index as int) >= b.distances.gap(0));
        }
    }

    /// Every live element other than the last sits strictly before the
    /// list end: the last key is the unique maximum.
    pub proof fn lemma_last_key_maximal(self, h: Index)
        requires
            self.wf(),
            self.root is Some,
            self.valid(h),
            h != self.rightmost(self.root_key()),
        ensures
            self.pos_of(h) < self.end,
    {
        assert(self.handle_ok(h.index as int));
        let l = self.loc_of(h);
        assert(self.frame_ok(l.frame));
        let b = self.frames.at(l.frame)->Base_0;
        let n = b.keys_seq().len() as int;
        self.lemma_offset_span_rightmost(l.frame);
        self.lemma_offset_span(l.frame);
        if l.index as int == n - 1 {
            assert(self.rightmost(l.frame) == b.keys_seq().last());
            assert(b.keys_seq()[n - 1] == h);
            assert(self.frame_offset(l.frame) + self.span_of(l.frame) < self.span_of(
                self.root_key(),
            ));
            assert(b.distances.prefix(n - 1) == b.distances.total());
        } else {
            assert(b.distances.gap(l.index as int) > 0);
            assert(b.distances.prefix(l.index as int) + b.distances.gap(l.index as int)
                <= b.distances.total());
        }
    }

    /// Two list states with the same frames give every frame the same span.
    pub proof fn lemma_span_frames_eq(l1: Self, l2: Self, k: FrameKey)
        requires
            l2.frames == l1.frames,
        ensures
            l2.span_of(k) == l1.span_of(k),
        decreases l1.lvl_of(k),
    {
        if l1.frames.contains(k) {
            match l1.frames.at(k) {
                EitherFrame::Base(b) => {},
                EitherFrame::Meta(m) => {
                    let c = m.frames_seq().last();
                    if m.frames_seq().len() >= 1 && l1.frames.contains(c) && l1.lvl_of(c)
                        < l1.lvl_of(k) {
                        Self::lemma_span_frames_eq(l1, l2, c);
                    }
                },
            }
        }
    }

    /// Spans never go negative: every frame's gaps are non-negative, and so
    /// is the span of its last child.
    pub proof fn lemma_span_nonneg(self, k: FrameKey)
        requires
            self.frames_wf(),
            self.frames.contains(k),
        ensures
            self.span_of(k) >= 0,
        decreases self.lvl_of(k),
    {
        assert(self.frame_ok(k));
        match self.frames.at(k) {
            EitherFrame::Base(b) => {},
            EitherFrame::Meta(m) => {
                let n = m.frames_seq().len() as int;
                assert(self.child_ok(k, n - 1));
                self.lemma_span_nonneg(m.frames_seq()[n - 1]);
            },
        }
    }
}

} // verus!
