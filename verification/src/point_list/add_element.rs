use vstd::prelude::*;

use crate::arena::Arena;
use crate::frame::{BaseFrame, EitherFrame, Embedding, FrameKey, IndexInFrame, MetaFrame};
use crate::index::Index;
use crate::point_list::{count_valid, PointList};
use crate::FRAME_CAPACITY;

verus! {

impl<E> PointList<E> {
    /// Whether an append can be placed below frame `k` without growing the
    /// root: some frame on the chain of last children has a free slot.
    pub open spec fn can_add(self, k: FrameKey) -> bool
        decreases self.lvl_of(k),
    {
        if !self.frames.contains(k) {
            false
        } else {
            match self.frames.at(k) {
                EitherFrame::Base(b) => b.keys_seq().len() < FRAME_CAPACITY,
                EitherFrame::Meta(m) => m.frames_seq().len() < FRAME_CAPACITY || {
                    let c = m.frames_seq().last();
                    &&& self.frames.contains(c)
                    &&& self.lvl_of(c) < self.lvl_of(k)
                    &&& self.can_add(c)
                },
            }
        }
    }

    fn key_can_be_added_to(&self, frame_key: FrameKey) -> (r: bool)
        requires
            self.wf(),
            self.frames.contains(frame_key),
        ensures
            r == self.can_add(frame_key),
        decreases self.lvl_of(frame_key),
    {
        proof {
            assert(self.frame_ok(frame_key));
            if self.frames.at(frame_key) is Meta {
                let n = self.frames.at(frame_key)->Meta_0.frames_seq().len() as int;
                assert(self.child_ok(frame_key, n - 1));
            }
        }
        match self.frames.get(frame_key) {
            EitherFrame::Meta(frame) => {
                if !frame.is_full() {
                    true
                } else {
                    self.key_can_be_added_to(frame.last_frame())
                }
            },
            EitherFrame::Base(frame) => !frame.is_full(),
        }
    }

    /// The distance spanned by the elements below frame `k`: the frame's gap
    /// total plus, for a meta frame, the span of its last child.
    fn length_of(&self, frame_key: FrameKey) -> (r: u64)
        requires
            self.wf(),
            self.frames.contains(frame_key),
            self.span_of(frame_key) <= self.end - self.start,
        ensures
            r == self.span_of(frame_key),
        decreases self.lvl_of(frame_key),
    {
        proof {
            assert(self.frame_ok(frame_key));
            if self.frames.at(frame_key) is Meta {
                let n = self.frames.at(frame_key)->Meta_0.frames_seq().len() as int;
                assert(self.child_ok(frame_key, n - 1));
                self.lemma_span_nonneg(self.frames.at(frame_key)->Meta_0.frames_seq()[n - 1]);
            }
        }
        match self.frames.get(frame_key) {
            EitherFrame::Meta(frame) => {
                let tail = self.length_of(frame.last_frame());
                frame.distances.length() + tail
            },
            EitherFrame::Base(frame) => frame.distances.length(),
        }
    }

    /// A chain of frames walked from the root along last children.
    pub open spec fn descent_chain(self, ch: Seq<FrameKey>) -> bool {
        &&& ch.len() >= 1
        &&& self.root == Some(ch[0])
        &&& forall|i: int| 0 <= i < ch.len() ==> #[trigger] self.frames.contains(ch[i])
        &&& forall|i: int|
            0 <= i < ch.len() - 1 ==> self.frames.at(#[trigger] ch[i]) is Meta && ch[i + 1]
                == self.frames.at(ch[i])->Meta_0.frames_seq().last()
    }

    /// On a descent chain, each frame after the first is embedded at the
    /// last slot of the previous one, one level below.
    pub proof fn lemma_chain_step(self, ch: Seq<FrameKey>, i: int)
        requires
            self.frames_wf(),
            self.descent_chain(ch),
            1 <= i < ch.len(),
        ensures
            self.frames.at(ch[i]).emb() == Embedding::InMetaFrame(
                IndexInFrame {
                    frame: ch[i - 1],
                    index: (self.frames.at(ch[i - 1])->Meta_0.frames_seq().len() - 1) as usize,
                },
            ),
            self.frames.at(ch[i]).lvl() == self.frames.at(ch[i - 1]).lvl() - 1,
    {
        assert(self.frames.contains(ch[i - 1]));
        assert(self.frame_ok(ch[i - 1]));
        let m = self.frames.at(ch[i - 1])->Meta_0;
        let n = m.frames_seq().len() as int;
        assert(self.child_ok(ch[i - 1], n - 1));
    }

    /// A frame of a descent chain sits on the rightmost spine: its offset
    /// plus its span is exactly the span of the root.
    pub proof fn lemma_chain_offset(self, ch: Seq<FrameKey>, i: int)
        requires
            self.frames_wf(),
            self.root is Some,
            self.descent_chain(ch),
            0 <= i < ch.len(),
        ensures
            self.frame_offset(ch[i]) + self.span_of(ch[i]) == self.span_of(self.root_key()),
            self.frame_offset(ch[i]) >= 0,
        decreases i,
    {
        assert(self.frames.contains(ch[i]));
        assert(self.frame_ok(ch[i]));
        if i == 0 {
            assert(self.frames.at(ch[0]).emb() == Embedding::InList) by {
                if self.frames.at(ch[0]).emb() is InMetaFrame {
                    let iif = self.frames.at(ch[0]).emb()->InMetaFrame_0;
                    assert(self.frame_ok(iif.frame));
                }
            }
            assert(self.frame_offset(ch[0]) == 0);
        } else {
            self.lemma_chain_step(ch, i);
            self.lemma_chain_offset(ch, i - 1);
            let p = ch[i - 1];
            let m = self.frames.at(p)->Meta_0;
            let n = m.frames_seq().len() as int;
            assert(self.frame_ok(ch[i]));
            assert(self.chain_fuel(ch[i]) >= 1);
            assert(self.chain_fuel(p) == self.chain_fuel(ch[i]) - 1);
            assert(m.distances.prefix(n - 1) == m.distances.total());
            assert(self.span_of(p) == m.distances.total() + self.span_of(ch[i]));
        }
    }

    /// Two lists with the same root where every frame of the first is
    /// unchanged in its embedding and level, and where the parent prefix sum
    /// at every embedding slot is unchanged, give every frame the same
    /// offset.
    pub proof fn lemma_rel_same(l1: Self, l2: Self, k: FrameKey)
        requires
            l1.frames_wf(),
            l1.root is Some,
            l1.frames.contains(l1.root_key()),
            l2.root == l1.root,
            l1.frames.contains(k),
            forall|k2: FrameKey| #[trigger]
                l1.frames.contains(k2) ==> l2.frames.contains(k2) && l2.frames.at(k2).emb()
                    == l1.frames.at(k2).emb() && l2.frames.at(k2).lvl() == l1.frames.at(k2).lvl(),
            forall|k2: FrameKey| #[trigger]
                l1.frames.contains(k2) ==> match l1.frames.at(k2).emb() {
                    Embedding::InMetaFrame(iif) => l2.frames.at(iif.frame).dists().prefix(
                        iif.index as int,
                    ) == l1.frames.at(iif.frame).dists().prefix(iif.index as int),
                    Embedding::InList => true,
                },
        ensures
            l2.frame_offset(k) == l1.frame_offset(k),
        decreases l1.chain_fuel(k),
    {
        assert(l1.frame_ok(k));
        assert(l1.frames.contains(l1.root_key()));
        assert(l2.root_lvl() == l1.root_lvl());
        match l1.frames.at(k).emb() {
            Embedding::InList => {},
            Embedding::InMetaFrame(iif) => {
                assert(l1.frame_ok(iif.frame));
                assert(l1.chain_fuel(k) >= 1);
                assert(l1.chain_fuel(iif.frame) == l1.chain_fuel(k) - 1);
                assert(l2.chain_fuel(k) == l1.chain_fuel(k));
                assert(l2.chain_fuel(iif.frame) == l1.chain_fuel(iif.frame));
                Self::lemma_rel_same(l1, l2, iif.frame);
            },
        }
    }

    /// Wrapping the root in a fresh meta frame moves no element: the new
    /// root contributes a zero prefix at slot 0, so every old frame keeps
    /// its offset.
    pub proof fn lemma_rel_grow(l1: Self, l2: Self, new_root: FrameKey, k: FrameKey)
        requires
            l1.frames_wf(),
            l1.root is Some,
            !l1.frames.contains(new_root),
            l2.frames.contains(new_root),
            l2.root == Some(new_root),
            l2.frames.at(new_root).emb() == Embedding::InList,
            l2.frames.at(new_root).lvl() == l1.root_lvl() + 1,
            l2.frames.at(new_root).dists().prefix(0) == 0,
            forall|k2: FrameKey| #[trigger]
                l1.frames.contains(k2) ==> l2.frames.contains(k2),
            forall|k2: FrameKey| #[trigger]
                l1.frames.contains(k2) && k2 != l1.root_key() ==> l2.frames.at(k2)
                    == l1.frames.at(k2),
            l2.frames.at(l1.root_key()).emb() == Embedding::InMetaFrame(
                IndexInFrame { frame: new_root, index: 0 },
            ),
            l2.frames.at(l1.root_key()).lvl() == l1.root_lvl(),
            l2.frames.at(l1.root_key()).dists() == l1.frames.at(l1.root_key()).dists(),
            l1.frames.contains(k),
        ensures
            l2.frame_offset(k) == l1.frame_offset(k),
        decreases l1.chain_fuel(k),
    {
        assert(l1.frame_ok(k));
        assert(l2.root_lvl() == l1.root_lvl() + 1);
        match l1.frames.at(k).emb() {
            Embedding::InList => {
                assert(k == l1.root_key());
                assert(l2.frames.at(k).emb() == Embedding::InMetaFrame(
                    IndexInFrame { frame: new_root, index: 0 },
                ));
                assert(l2.chain_fuel(k) == 1);
                assert(l2.frame_offset(k) == l2.rel_of(new_root, 0) + l2.frames.at(
                    new_root,
                ).dists().prefix(0));
            },
            Embedding::InMetaFrame(iif) => {
                assert(l1.frame_ok(iif.frame));
                assert(k != l1.root_key());
                assert(iif.frame != new_root);
                assert(l1.chain_fuel(k) >= 1);
                assert(l2.chain_fuel(k) == l1.chain_fuel(k) + 1);
                assert(l2.chain_fuel(iif.frame) == l1.chain_fuel(iif.frame) + 1);
                Self::lemma_rel_grow(l1, l2, new_root, iif.frame);
                if iif.frame == l1.root_key() {
                    assert(l2.frames.at(iif.frame).dists() == l1.frames.at(iif.frame).dists());
                } else {
                    assert(l2.frames.at(iif.frame) == l1.frames.at(iif.frame));
                }
            },
        }
    }

    /// A frame off a descent chain keeps its span when only chain frames
    /// change: its chain of last children never meets the changed frames.
    pub proof fn lemma_span_off_chain(l1: Self, l2: Self, ch: Seq<FrameKey>, x: FrameKey)
        requires
            l1.frames_wf(),
            l1.root is Some,
            l1.descent_chain(ch),
            forall|k2: FrameKey| #[trigger]
                l1.frames.contains(k2) ==> l2.frames.contains(k2),
            forall|k2: FrameKey| #[trigger]
                l1.frames.contains(k2) && !ch.contains(k2) ==> l2.frames.at(k2) == l1.frames.at(
                    k2,
                ),
            l1.frames.contains(x),
            !ch.contains(x),
        ensures
            l2.span_of(x) == l1.span_of(x),
        decreases l1.lvl_of(x),
    {
        assert(l1.frame_ok(x));
        assert(l2.frames.at(x) == l1.frames.at(x));
        match l1.frames.at(x) {
            EitherFrame::Base(b) => {},
            EitherFrame::Meta(m) => {
                let n = m.frames_seq().len() as int;
                let c = m.frames_seq()[n - 1];
                assert(l1.child_ok(x, n - 1));
                assert(!ch.contains(c)) by {
                    if ch.contains(c) {
                        let i = choose|i: int| 0 <= i < ch.len() && ch[i] == c;
                        if i == 0 {
                            assert(l1.frames.at(c).emb() == Embedding::InMetaFrame(
                                IndexInFrame { frame: x, index: (n - 1) as usize },
                            ));
                            assert(l1.frame_ok(c));
                        } else {
                            l1.lemma_chain_step(ch, i);
                            assert(ch[i - 1] == x);
                            assert(ch.contains(ch[i - 1]));
                        }
                    }
                }
                Self::lemma_span_off_chain(l1, l2, ch, c);
                assert(l2.lvl_of(x) == l1.lvl_of(x));
                assert(l2.lvl_of(c) == l1.lvl_of(c));
            },
        }
    }

    /// When the spans below a descent chain change by a constant (the last
    /// chain frame grew by `delta` and nothing off the chain moved), every
    /// chain frame's span grows by exactly `delta`.
    #[verifier::rlimit(60)]
    pub proof fn lemma_chain_span_delta(l1: Self, l2: Self, ch: Seq<FrameKey>, delta: int, i: int)
        requires
            l1.frames_wf(),
            l1.root is Some,
            l1.descent_chain(ch),
            forall|k2: FrameKey| #[trigger]
                l1.frames.contains(k2) ==> l2.frames.contains(k2),
            forall|k2: FrameKey| #[trigger]
                l1.frames.contains(k2) && !ch.contains(k2) ==> l2.frames.at(k2) == l1.frames.at(
                    k2,
                ),
            forall|j: int|
                0 <= j < ch.len() - 1 ==> l2.frames.at(#[trigger] ch[j]) == l1.frames.at(ch[j]),
            l2.span_of(ch[ch.len() - 1]) == l1.span_of(ch[ch.len() - 1]) + delta,
            l2.lvl_of(ch[ch.len() - 1]) == l1.lvl_of(ch[ch.len() - 1]),
            0 <= i < ch.len(),
        ensures
            l2.span_of(ch[i]) == l1.span_of(ch[i]) + delta,
        decreases ch.len() - i,
    {
        if i == ch.len() - 1 {
        } else {
            Self::lemma_chain_span_delta(l1, l2, ch, delta, i + 1);
            assert(l1.frames.contains(ch[i]));
            assert(l1.frame_ok(ch[i]));
            let m = l1.frames.at(ch[i])->Meta_0;
            let n = m.frames_seq().len() as int;
            assert(l1.child_ok(ch[i], n - 1));
            assert(ch[i + 1] == m.frames_seq()[n - 1]);
            assert(l2.frames.at(ch[i]) == l1.frames.at(ch[i]));
            assert(l2.lvl_of(ch[i]) == l1.lvl_of(ch[i]));
            assert(l2.lvl_of(ch[i + 1]) == l1.lvl_of(ch[i + 1])) by {
                if i + 1 < ch.len() - 1 {
                    assert(l2.frames.at(ch[i + 1]) == l1.frames.at(ch[i + 1]));
                }
            }
        }
    }
}

impl<E> PointList<E> {
    /// Make sure the root has room somewhere on its rightmost spine: when
    /// every frame there is full, wrap the root in a fresh meta frame one
    /// level up, whose single child is the old root.  No element moves.
    fn ensure_key_can_be_added_to_root(&mut self)
        requires
            old(self).wf(),
            old(self).root is Some,
        ensures
            final(self).wf(),
            final(self).root is Some,
            final(self).can_add(final(self).root_key()),
            final(self).start == old(self).start,
            final(self).end == old(self).end,
            final(self).len == old(self).len,
            final(self).point_slots@ == old(self).point_slots@,
            final(self).elements@ == old(self).elements@,
            forall|k2: Index| #[trigger]
                final(self).valid(k2) == old(self).valid(k2),
            forall|k2: Index|
                old(self).valid(k2) ==> final(self).pos_of(k2) == old(self).pos_of(k2),
            final(self).span_of(final(self).root_key()) == old(self).span_of(
                old(self).root_key(),
            ),
            old(self).can_add(old(self).root_key()) ==> *final(self) == *old(self),
            !old(self).can_add(old(self).root_key()) ==> {
                &&& !old(self).frames.contains(final(self).root_key())
                &&& final(self).frames.at(final(self).root_key()) is Meta
                &&& final(self).frames.at(final(self).root_key()).lvl() == old(self).root_lvl()
                    + 1
                &&& final(self).frames.at(final(self).root_key())->Meta_0.frames_seq()
                    =~= seq![old(self).root_key()]
                &&& final(self).frames.at(old(self).root_key()).emb() == Embedding::InMetaFrame(
                    IndexInFrame { frame: final(self).root_key(), index: 0 },
                )
            },
    {
        let root_key = self.root.unwrap();
        if !self.key_can_be_added_to(root_key) {
            let ghost l1 = *self;
            let arena_len = self.frames.slots.len();
            let root_level = self.frames.get(root_key).level();
            proof {
                assert(root_level < arena_len);
            }
            let level = root_level + 1;
            let (new_root, index) = MetaFrame::new_with_frame(root_key, level, Embedding::InList);
            let new_root_key = self.frames.insert(EitherFrame::Meta(new_root));
            let mut f = self.frames.take(root_key);
            f.embed(Embedding::InMetaFrame(IndexInFrame::new(new_root_key, index)));
            self.frames.set(root_key, f);
            self.root = Some(new_root_key);
            proof {
                let l2 = *self;
                let ghost ch = seq![root_key];
                assert(l1.frame_ok(root_key));
                assert(l1.descent_chain(ch));
                assert forall|k2: FrameKey| #[trigger]
                    l1.frames.contains(k2) && k2 != root_key implies l2.frames.at(k2)
                    == l1.frames.at(k2) && l2.frames.contains(k2) by {}
                assert(l2.frames.at(root_key) == l1.frames.at(root_key).with_emb(
                    Embedding::InMetaFrame(IndexInFrame { frame: new_root_key, index: 0 }),
                ));
                // the old root keeps its span: its last child, if any, is off
                // the one-frame chain
                assert(l2.span_of(root_key) == l1.span_of(root_key)) by {
                    match l1.frames.at(root_key) {
                        EitherFrame::Base(b) => {},
                        EitherFrame::Meta(m) => {
                            let n = m.frames_seq().len() as int;
                            let c = m.frames_seq()[n - 1];
                            assert(l1.child_ok(root_key, n - 1));
                            assert(!ch.contains(c)) by {
                                assert(l1.frames.at(c).lvl() < l1.frames.at(root_key).lvl());
                            }
                            Self::lemma_span_off_chain(l1, l2, ch, c);
                            assert(l2.lvl_of(root_key) == l1.lvl_of(root_key));
                            assert(l2.lvl_of(c) == l1.lvl_of(c));
                        },
                    }
                }
                assert(l2.span_of(new_root_key) == l2.span_of(root_key)) by {
                    assert(l2.frames.at(new_root_key)->Meta_0.frames_seq() =~= seq![root_key]);
                    assert(l2.frames.at(new_root_key)->Meta_0.distances.total() == 0);
                    assert(l2.lvl_of(root_key) < l2.lvl_of(new_root_key));
                }
                // every frame of the old list still satisfies the invariant
                assert forall|k: FrameKey| #[trigger] l2.frames.contains(k) implies l2.frame_ok(
                    k,
                ) by {
                    if k == new_root_key {
                        assert(l2.frames.at(k).wf());
                        assert(l2.child_ok(k, 0));
                        assert(l2.meta_ok(k)) by {
                            assert(l2.frames.at(k)->Meta_0.frames_seq().len() == 1);
                        }
                    } else {
                        assert(l1.frames.contains(k));
                        assert(l1.frame_ok(k));
                        if k == root_key {
                            assert(l2.frames.at(k).wf());
                            if l2.frames.at(k) is Meta {
                                assert forall|j: int|
                                    0 <= j < l2.frames.at(k)->Meta_0.frames_seq().len() implies
                                    #[trigger] l2.child_ok(k, j) by {
                                    assert(l1.child_ok(k, j));
                                    let c = l1.frames.at(k)->Meta_0.frames_seq()[j];
                                    assert(!ch.contains(c)) by {
                                        assert(l1.frames.at(c).lvl() < l1.frames.at(k).lvl());
                                    }
                                    Self::lemma_span_off_chain(l1, l2, ch, c);
                                }
                            }
                        } else {
                            assert(l2.frames.at(k) == l1.frames.at(k));
                            match l1.frames.at(k).emb() {
                                Embedding::InList => {
                                    assert(l1.root == Some(k));
                                    assert(k == root_key);
                                },
                                Embedding::InMetaFrame(iif) => {
                                    assert(l1.frame_ok(iif.frame));
                                    assert(iif.frame != new_root_key);
                                    if iif.frame == root_key {
                                        assert(l2.frames.at(iif.frame).slots_len()
                                            == l1.frames.at(iif.frame).slots_len());
                                    }
                                },
                            }
                            if l2.frames.at(k) is Meta {
                                assert forall|j: int|
                                    0 <= j < l2.frames.at(k)->Meta_0.frames_seq().len() implies
                                    #[trigger] l2.child_ok(k, j) by {
                                    assert(l1.child_ok(k, j));
                                    let c = l1.frames.at(k)->Meta_0.frames_seq()[j];
                                    assert(c != root_key) by {
                                        if c == root_key {
                                            assert(l1.frames.at(c).emb()
                                                == Embedding::InMetaFrame(
                                                IndexInFrame { frame: k, index: j as usize },
                                            ));
                                        }
                                    }
                                    assert(!ch.contains(c));
                                    Self::lemma_span_off_chain(l1, l2, ch, c);
                                }
                            }
                        }
                    }
                }
                // handles are untouched and keep their positions
                assert forall|k2: Index| old(self).valid(k2) implies l2.pos_of(k2) == l1.pos_of(
                    k2,
                ) by {
                    assert(l1.handle_ok(k2.index as int));
                    let loc = l1.loc_of(k2);
                    Self::lemma_rel_grow(l1, l2, new_root_key, loc.frame);
                    assert(l2.frames.at(loc.frame).dists() == l1.frames.at(loc.frame).dists());
                }
                assert(l2.points_wf()) by {
                    assert forall|h: int|
                        0 <= h < l2.point_slots@.len() && #[trigger] l2.point_slots@[h] is Some
                        implies l2.handle_ok(h) by {
                        assert(l1.handle_ok(h));
                        let loc = l1.point_slots@[h]->Some_0;
                        if loc.frame == root_key {
                            assert(l2.frames.at(loc.frame)->Base_0.keys_seq() == l1.frames.at(
                                loc.frame,
                            )->Base_0.keys_seq());
                            assert(l2.frames.at(loc.frame).slots_len() == l1.frames.at(
                                loc.frame,
                            ).slots_len());
                        }
                    }
                }
                assert(l2.keys_wf()) by {
                    assert forall|k: FrameKey, j: int|
                        l2.frames.contains(k) && l2.frames.at(k) is Base && 0 <= j < l2.frames.at(
                            k,
                        ).slots_len() implies #[trigger] l2.key_ok(k, j) by {
                        assert(k != new_root_key);
                        assert(l1.frames.contains(k));
                        assert(l1.key_ok(k, j));
                        if k == root_key {
                            assert(l2.frames.at(k)->Base_0.keys_seq() == l1.frames.at(
                                k,
                            )->Base_0.keys_seq());
                        }
                    }
                }
                assert(l2.frames.at(new_root_key).lvl() < l2.frames.slots@.len());
                assert(l2.end == l2.start + l2.span_of(l2.root_key()));
                assert(l2.wf());
            }
        }
    }
}

/// Where the placement descent ended: either the deepest base frame on the
/// rightmost spine has room, or a full last child forces a fresh base frame
/// wrapped up to the sibling's level.
enum AddKeyStrategy {
    NewBaseFrameNecessary { frame_with_full_last_frame: FrameKey, last_frame: FrameKey },
    KeyCanBeAddedToExistingBaseFrame { base_frame: FrameKey },
}

impl<E> PointList<E> {
    /// A non-last child of a meta frame never lies on a descent chain: chain
    /// members are embedded at their parents' last slots.
    proof fn lemma_nonlast_child_off_chain(self, ch: Seq<FrameKey>, k: FrameKey, j: int)
        requires
            self.frames_wf(),
            self.descent_chain(ch),
            self.frames.contains(k),
            self.frames.at(k) is Meta,
            0 <= j < self.frames.at(k)->Meta_0.frames_seq().len() - 1,
        ensures
            !ch.contains(self.frames.at(k)->Meta_0.frames_seq()[j]),
    {
        assert(self.frame_ok(k));
        assert(self.child_ok(k, j));
        let c = self.frames.at(k)->Meta_0.frames_seq()[j];
        if ch.contains(c) {
            let i = choose|i: int| 0 <= i < ch.len() && ch[i] == c;
            if i == 0 {
                assert(self.frames.contains(ch[0]));
                assert(self.frame_ok(ch[0]));
                assert(self.frames.at(c).emb() is InMetaFrame);
            } else {
                self.lemma_chain_step(ch, i);
            }
        }
    }

    /// Walk from the root along last children to the place where the new
    /// element goes; also returns the chain of frames walked.
    fn add_key_strategy(&self) -> (r: (AddKeyStrategy, Ghost<Seq<FrameKey>>))
        requires
            self.wf(),
            self.root is Some,
            self.can_add(self.root_key()),
        ensures
            self.descent_chain(r.1@),
            forall|i: int| 0 <= i < r.1@.len() ==> self.can_add(#[trigger] r.1@[i]),
            match r.0 {
                AddKeyStrategy::KeyCanBeAddedToExistingBaseFrame { base_frame } => {
                    &&& r.1@.last() == base_frame
                    &&& self.frames.contains(base_frame)
                    &&& self.frames.at(base_frame) is Base
                    &&& self.frames.at(base_frame).slots_len() < FRAME_CAPACITY
                },
                AddKeyStrategy::NewBaseFrameNecessary { frame_with_full_last_frame, last_frame } => {
                    &&& r.1@.last() == frame_with_full_last_frame
                    &&& self.frames.contains(frame_with_full_last_frame)
                    &&& self.frames.at(frame_with_full_last_frame) is Meta
                    &&& self.frames.at(frame_with_full_last_frame).slots_len() < FRAME_CAPACITY
                    &&& last_frame == self.frames.at(
                        frame_with_full_last_frame,
                    )->Meta_0.frames_seq().last()
                    &&& self.frames.contains(last_frame)
                    &&& !self.can_add(last_frame)
                },
            },
    {
        let mut frame_key = self.root.unwrap();
        let ghost mut ch: Seq<FrameKey> = seq![frame_key];
        loop
            invariant
                self.wf(),
                self.root is Some,
                self.frames.contains(frame_key),
                self.can_add(frame_key),
                self.descent_chain(ch),
                ch.last() == frame_key,
                ch.len() >= 1,
                forall|i: int| 0 <= i < ch.len() ==> self.can_add(#[trigger] ch[i]),
            decreases self.lvl_of(frame_key),
        {
            proof {
                assert(self.frame_ok(frame_key));
                if self.frames.at(frame_key) is Meta {
                    let n = self.frames.at(frame_key)->Meta_0.frames_seq().len() as int;
                    assert(self.child_ok(frame_key, n - 1));
                }
            }
            match self.frames.get(frame_key) {
                EitherFrame::Meta(meta_frame) => {
                    let last = meta_frame.last_frame();
                    if self.key_can_be_added_to(last) {
                        proof {
                            ch = ch.push(last);
                        }
                        frame_key = last;
                    } else {
                        return (
                            AddKeyStrategy::NewBaseFrameNecessary {
                                frame_with_full_last_frame: frame_key,
                                last_frame: last,
                            },
                            Ghost(ch),
                        );
                    }
                },
                EitherFrame::Base(_) => {
                    return (
                        AddKeyStrategy::KeyCanBeAddedToExistingBaseFrame { base_frame: frame_key },
                        Ghost(ch),
                    );
                },
            }
        }
    }

    /// A fresh base frame holding one fresh handle, with the element stored
    /// and the handle table extended; the frame is not yet embedded.
    fn add_base_frame(&mut self, element: E) -> (r: (FrameKey, Index))
        requires
            old(self).point_slots@.len() < usize::MAX,
            old(self).point_slots@.len() == old(self).elements@.len(),
        ensures
            !old(self).frames.contains(r.0),
            final(self).frames.contains(r.0),
            final(self).frames.at(r.0) is Base,
            final(self).frames.at(r.0)->Base_0.keys_seq() =~= seq![r.1],
            final(self).frames.at(r.0).wf(),
            final(self).frames.at(r.0).dists().total() == 0,
            final(self).frames.at(r.0).dists().prefix(0) == 0,
            final(self).frames.at(r.0).emb() == Embedding::InList,
            final(self).frames.at(r.0).lvl() == 0,
            forall|k2: FrameKey| #[trigger]
                old(self).frames.contains(k2) ==> final(self).frames.contains(k2)
                    && final(self).frames.at(k2) == old(self).frames.at(k2),
            forall|k2: FrameKey| #[trigger]
                final(self).frames.contains(k2) ==> k2 == r.0 || old(self).frames.contains(k2),
            final(self).frames.slots@.len() == old(self).frames.slots@.len() + 1,
            r.1.index == old(self).point_slots@.len(),
            final(self).point_slots@ == old(self).point_slots@.push(
                Some(IndexInFrame { frame: r.0, index: 0 }),
            ),
            final(self).elements@ == old(self).elements@.push(Some(element)),
            final(self).root == old(self).root,
            final(self).start == old(self).start,
            final(self).end == old(self).end,
            final(self).len == old(self).len,
    {
        let point_key = Index::new(self.point_slots.len());
        let (base_frame, idx) = BaseFrame::new_with_key(point_key, Embedding::InList);
        let base_frame_key = self.frames.insert(EitherFrame::Base(base_frame));
        self.point_slots.push(Some(IndexInFrame::new(base_frame_key, idx)));
        self.elements.push(Some(element));
        (base_frame_key, point_key)
    }
}

impl<E> PointList<E> {
    /// Levels strictly decrease along a descent chain, so its frames are
    /// pairwise distinct.
    proof fn lemma_chain_lvl(self, ch: Seq<FrameKey>, a: int, b: int)
        requires
            self.frames_wf(),
            self.descent_chain(ch),
            0 <= a < b < ch.len(),
        ensures
            self.frames.at(ch[b]).lvl() < self.frames.at(ch[a]).lvl(),
        decreases b - a,
    {
        self.lemma_chain_step(ch, b);
        if a < b - 1 {
            self.lemma_chain_lvl(ch, a, b - 1);
        }
    }

    /// The facts a freshly built wrapping chain satisfies: a one-key base
    /// frame at the bottom, single-child meta frames above, all with zero
    /// distances.
    pub open spec fn fresh_chain(self, fresh: Seq<FrameKey>) -> bool {
        &&& fresh.len() >= 1
        &&& forall|i: int| 0 <= i < fresh.len() ==> #[trigger] self.frames.contains(fresh[i])
        &&& self.frames.at(fresh[0]) is Base
        &&& self.frames.at(fresh[0]).dists().total() == 0
        &&& self.frames.at(fresh[0]).lvl() == 0
        &&& forall|i: int|
            1 <= i < fresh.len() ==> self.frames.at(#[trigger] fresh[i]) is Meta && self.frames.at(
                fresh[i],
            ).lvl() == i && self.frames.at(fresh[i]).dists().total() == 0 && self.frames.at(
                fresh[i],
            )->Meta_0.frames_seq() =~= seq![fresh[i - 1]]
    }

    /// Every frame of a fresh wrapping chain spans zero distance.
    proof fn lemma_fresh_span(self, fresh: Seq<FrameKey>, i: int)
        requires
            self.fresh_chain(fresh),
            0 <= i < fresh.len(),
        ensures
            self.span_of(fresh[i]) == 0,
        decreases i,
    {
        if i > 0 {
            self.lemma_fresh_span(fresh, i - 1);
            assert(self.frames.at(fresh[i])->Meta_0.frames_seq().last() == fresh[i - 1]);
            assert(self.lvl_of(fresh[i - 1]) < self.lvl_of(fresh[i]));
        }
    }

    /// A fresh wrapping chain adds no offset: every slot entered on the way
    /// up is slot 0, whose prefix sum is zero, so the bottom frame has the
    /// offset of the attachment slot itself.
    #[verifier::rlimit(60)]
    proof fn lemma_fresh_offset(self, fresh: Seq<FrameKey>, p: FrameKey, pslot: usize, i: int)
        requires
            self.frames_wf(),
            self.root is Some,
            self.fresh_chain(fresh),
            forall|i2: int|
                0 <= i2 < fresh.len() - 1 ==> self.frames.at(#[trigger] fresh[i2]).emb()
                    == Embedding::InMetaFrame(
                    IndexInFrame { frame: fresh[i2 + 1], index: 0 },
                ),
            self.frames.at(fresh[fresh.len() - 1]).emb() == Embedding::InMetaFrame(
                IndexInFrame { frame: p, index: pslot },
            ),
            self.frames.contains(p),
            0 <= i < fresh.len(),
        ensures
            self.frame_offset(fresh[i]) == self.frame_offset(p) + self.frames.at(
                p,
            ).dists().prefix(pslot as int),
        decreases fresh.len() - i,
    {
        assert(self.frames.contains(fresh[i]));
        assert(self.frame_ok(fresh[i]));
        if i == fresh.len() - 1 {
            assert(self.frame_ok(p));
            assert(self.chain_fuel(fresh[i]) >= 1);
            assert(self.chain_fuel(p) == self.chain_fuel(fresh[i]) - 1);
        } else {
            self.lemma_fresh_offset(fresh, p, pslot, i + 1);
            assert(self.frame_ok(fresh[i + 1]));
            assert(self.chain_fuel(fresh[i]) >= 1);
            assert(self.chain_fuel(fresh[i + 1]) == self.chain_fuel(fresh[i]) - 1);
            assert(self.frames.at(fresh[i + 1]).dists().prefix(0) == 0);
        }
    }
}

impl<E> PointList<E> {
    /// The two halves of the grow step's contract that later proofs need:
    /// how `l1` relates to the pre-grow state `l0`.
    #[verifier::opaque]
    pub open spec fn grown_from(l1: Self, l0: Self) -> bool {
        &&& l0.wf()
        &&& l0.root is Some
        &&& l1.wf()
        &&& l1.root is Some
        &&& l1.start == l0.start
        &&& l1.end == l0.end
        &&& l1.len == l0.len
        &&& l1.point_slots@ == l0.point_slots@
        &&& l1.elements@ == l0.elements@
        &&& (forall|k2: Index| #[trigger] l1.valid(k2) == l0.valid(k2))
        &&& (forall|k2: Index| l0.valid(k2) ==> l1.pos_of(k2) == l0.pos_of(k2))
    }

    /// Wrap a frame in a fresh single-child meta frame of the given level;
    /// the new frame starts unembedded.
    fn wrap_in_meta(&mut self, current: FrameKey, level: usize) -> (mk: FrameKey)
        requires
            old(self).frames.contains(current),
            level >= 1,
        ensures
            !old(self).frames.contains(mk),
            mk != current,
            final(self).frames.contains(mk),
            final(self).frames.contains(current),
            final(self).frames.at(mk) is Meta,
            final(self).frames.at(mk).lvl() == level,
            final(self).frames.at(mk).dists().total() == 0,
            final(self).frames.at(mk)->Meta_0.frames_seq() =~= seq![current],
            final(self).frames.at(mk).emb() == Embedding::InList,
            final(self).frames.at(mk).wf(),
            final(self).frames.at(current) == old(self).frames.at(current).with_emb(
                Embedding::InMetaFrame(IndexInFrame { frame: mk, index: 0 }),
            ),
            forall|k2: FrameKey| #[trigger]
                old(self).frames.contains(k2) ==> final(self).frames.contains(k2),
            forall|k2: FrameKey| #[trigger]
                final(self).frames.contains(k2) ==> k2 == mk || old(self).frames.contains(k2),
            forall|k2: FrameKey| #[trigger]
                old(self).frames.contains(k2) && k2 != current ==> final(self).frames.at(k2)
                    == old(self).frames.at(k2),
            final(self).frames.slots@.len() == old(self).frames.slots@.len() + 1,
            final(self).root == old(self).root,
            final(self).start == old(self).start,
            final(self).end == old(self).end,
            final(self).len == old(self).len,
            final(self).point_slots@ == old(self).point_slots@,
            final(self).elements@ == old(self).elements@,
    {
        let (meta, idx) = MetaFrame::new_with_frame(current, level, Embedding::InList);
        let meta_key = self.frames.insert(EitherFrame::Meta(meta));
        let mut cf = self.frames.take(current);
        cf.embed(Embedding::InMetaFrame(IndexInFrame::new(meta_key, idx)));
        self.frames.set(current, cf);
        meta_key
    }

    /// Place the new handle into a base frame with room on the rightmost
    /// spine.
    fn add_element_direct(
        &mut self,
        element: E,
        distance_from_last: u64,
        base_frame: FrameKey,
        chg: Ghost<Seq<FrameKey>>,
        l0g: Ghost<Self>,
    ) -> (key: Index)
        requires
            Self::grown_from(*old(self), l0g@),
            old(self).wf(),
            old(self).root is Some,
            l0g@.end == old(self).end,
            l0g@.start == old(self).start,
            l0g@.len == old(self).len,
            l0g@.point_slots@ == old(self).point_slots@,
            l0g@.elements@ == old(self).elements@,
            distance_from_last > 0,
            l0g@.end + distance_from_last <= u64::MAX,
            old(self).point_slots@.len() < usize::MAX,
            old(self).descent_chain(chg@),
            chg@.last() == base_frame,
            old(self).frames.contains(base_frame),
            old(self).frames.at(base_frame) is Base,
            old(self).frames.at(base_frame).slots_len() < FRAME_CAPACITY,
        ensures
            final(self).wf(),
            final(self).len == l0g@.len + 1,
            key.index == l0g@.point_slots@.len(),
            !l0g@.valid(key),
            final(self).valid(key),
            final(self).elements@ == l0g@.elements@.push(Some(element)),
            final(self).point_slots@.len() == l0g@.point_slots@.len() + 1,
            forall|k2: Index|
                l0g@.valid(k2) ==> final(self).valid(k2) && final(self).pos_of(k2)
                    == l0g@.pos_of(k2),
            forall|k2: Index| #[trigger] final(self).valid(k2) ==> k2 == key || l0g@.valid(k2),
            final(self).start == l0g@.start,
            final(self).end == l0g@.end + distance_from_last,
            final(self).pos_of(key) == final(self).end,
            final(self).root is Some,
            final(self).rightmost(final(self).root_key()) == key,
    {
        let ghost l0 = l0g@;
        let ghost l1 = *self;
        let ghost ch = chg@;
        proof {
            lemma_count_le(l1.point_slots@);
            l1.lemma_chain_offset(ch, ch.len() - 1);
            assert(ch.contains(ch.last())) by {
                assert(ch[ch.len() - 1] == ch.last());
            }
            assert(l1.frame_ok(base_frame));
            assert(l1.span_of(base_frame) == l1.frames.at(
                base_frame,
            )->Base_0.distances.total());
        }
        let point_key = Index::new(self.point_slots.len());
        let f = self.frames.take(base_frame);
        let slot: usize;
        match f {
            EitherFrame::Base(mut b) => {
                slot = b.add_key(point_key, distance_from_last);
                self.frames.set(base_frame, EitherFrame::Base(b));
            },
            EitherFrame::Meta(m) => {
                proof {
                    assert(false);
                }
                slot = 0;
                self.frames.set(base_frame, EitherFrame::Meta(m));
            },
        }
        self.point_slots.push(Some(IndexInFrame::new(base_frame, slot)));
        self.elements.push(Some(element));
        self.end = self.end + distance_from_last;
        self.len = self.len + 1;
        proof {
            Self::lemma_direct_case(
                *self,
                l0,
                l1,
                ch,
                base_frame,
                point_key,
                distance_from_last,
                self.elements@.last(),
            );
        }
        point_key
    }


    /// Create the fresh base frame for the new element and wrap it in fresh
    /// single-child meta frames up to `target_level`; the chain is not yet
    /// attached to the tree.
    #[verifier::rlimit(100)]
    fn build_fresh_chain(&mut self, element: E, target_level: usize) -> (r: (
        FrameKey,
        Index,
        FrameKey,
        Ghost<Seq<FrameKey>>,
    ))
        requires
            old(self).wf(),
            old(self).point_slots@.len() < usize::MAX,
            target_level < usize::MAX,
        ensures
            ({
                let (nb_key, key, current, freshg) = r;
                let fresh = freshg@;
                let l1 = *old(self);
                &&& fresh.len() == target_level + 1
                &&& current == fresh.last()
                &&& fresh[0] == nb_key
                &&& key.index == l1.point_slots@.len()
                &&& Self::chain_built(*final(self), l1, fresh, nb_key, key)
                &&& final(self).frames.contains(current)
                &&& !l1.frames.contains(current)
                &&& final(self).root == l1.root
                &&& final(self).start == l1.start
                &&& final(self).end == l1.end
                &&& final(self).len == l1.len
                &&& final(self).point_slots@ == l1.point_slots@.push(
                    Some(IndexInFrame { frame: nb_key, index: 0 }),
                )
                &&& final(self).elements@ == l1.elements@.push(Some(element))
                &&& final(self).frames.slots@.len() > l1.frames.slots@.len()
            }),
    {
        let ghost l1 = *self;
        let (nb_key, point_key) = self.add_base_frame(element);
        let ghost l_a = *self;
        let mut current = nb_key;
        let ghost mut fresh: Seq<FrameKey> = seq![nb_key];
        let mut lvl: usize = 1;
        while lvl <= target_level
            invariant
                1 <= lvl <= target_level + 1,
                target_level < usize::MAX,
                fresh.len() == lvl,
                current == fresh.last(),
                fresh[0] == nb_key,
                forall|k2: FrameKey| #[trigger]
                    l_a.frames.contains(k2) && !fresh.contains(k2) ==> self.frames.contains(k2)
                        && self.frames.at(k2) == l_a.frames.at(k2),
                forall|k2: FrameKey| #[trigger]
                    self.frames.contains(k2) ==> l_a.frames.contains(k2) || fresh.contains(k2),
                forall|k2: FrameKey| #[trigger]
                    l1.frames.contains(k2) ==> self.frames.contains(k2),
                forall|i: int|
                    0 <= i < lvl ==> self.frames.contains(#[trigger] fresh[i])
                        && !l1.frames.contains(fresh[i]),
                self.frames.at(nb_key) is Base,
                self.frames.at(nb_key)->Base_0.keys_seq() =~= seq![point_key],
                self.frames.at(nb_key).wf(),
                self.frames.at(nb_key).dists().total() == 0,
                self.frames.at(nb_key).lvl() == 0,
                forall|i: int|
                    1 <= i < lvl ==> self.frames.at(#[trigger] fresh[i]) is Meta && self.frames.at(
                        fresh[i],
                    ).lvl() == i && self.frames.at(fresh[i]).dists().total() == 0 && self.frames.at(
                        fresh[i],
                    )->Meta_0.frames_seq() =~= seq![fresh[i - 1]] && self.frames.at(fresh[i]).wf(),
                forall|i: int|
                    0 <= i < lvl - 1 ==> self.frames.at(#[trigger] fresh[i]).emb()
                        == Embedding::InMetaFrame(IndexInFrame { frame: fresh[i + 1], index: 0 }),
                self.frames.at(fresh.last()).emb() == Embedding::InList,
                self.root == l_a.root,
                self.start == l_a.start,
                self.end == l_a.end,
                self.len == l_a.len,
                self.point_slots@ == l_a.point_slots@,
                self.elements@ == l_a.elements@,
                self.frames.slots@.len() >= l_a.frames.slots@.len(),
            decreases target_level + 1 - lvl,
        {
            let meta_key = self.wrap_in_meta(current, lvl);
            proof {
                assert(!l1.frames.contains(meta_key));
                assert(!l_a.frames.contains(meta_key));
                let old_fresh = fresh;
                fresh = fresh.push(meta_key);
                assert(fresh[fresh.len() - 1] == meta_key);
                assert(fresh.contains(meta_key));
                assert forall|y: FrameKey| old_fresh.contains(y) implies #[trigger] fresh.contains(
                    y,
                ) by {
                    let i = choose|i: int| 0 <= i < old_fresh.len() && old_fresh[i] == y;
                    assert(fresh[i] == y);
                }
                assert(fresh.contains(current)) by {
                    assert(old_fresh[old_fresh.len() - 1] == current);
                    assert(old_fresh.contains(current));
                }
            }
            current = meta_key;
            lvl += 1;
        }
        proof {
            assert forall|k2: FrameKey| #[trigger] l1.frames.contains(k2)
                implies self.frames.contains(k2) && self.frames.at(k2) == l1.frames.at(k2) by {
                assert(!fresh.contains(k2)) by {
                    if fresh.contains(k2) {
                        let i = choose|i: int| 0 <= i < fresh.len() && fresh[i] == k2;
                    }
                }
                assert(l_a.frames.contains(k2) && l_a.frames.at(k2) == l1.frames.at(k2));
            }
            assert forall|k2: FrameKey| #[trigger] self.frames.contains(k2)
                implies l1.frames.contains(k2) || fresh.contains(k2) by {
                if l_a.frames.contains(k2) && !l1.frames.contains(k2) {
                    assert(k2 == nb_key);
                    assert(fresh[0] == nb_key);
                    assert(fresh.contains(nb_key));
                }
            }
            assert(fresh.contains(current) && self.frames.contains(current)) by {
                assert(fresh[fresh.len() - 1] == current);
            }
            assert(Self::chain_built(*self, l1, fresh, nb_key, point_key)) by {
                reveal(PointList::chain_built);
            }
        }
        (nb_key, point_key, current, Ghost(fresh))
    }


    /// Attach a frame as the new last child of a meta frame, with the given
    /// boundary gap covering the previous last child's span plus the
    /// distance between the two.
    fn attach_fresh_sibling(&mut self, p_key: FrameKey, current: FrameKey, boundary: u64) -> (slotp:
        usize)
        requires
            old(self).frames.contains(p_key),
            old(self).frames.contains(current),
            current != p_key,
            old(self).frames.at(p_key) is Meta,
            old(self).frames.at(p_key).wf(),
            old(self).frames.at(p_key).slots_len() < FRAME_CAPACITY,
            boundary > 0,
            old(self).frames.at(p_key).dists().total() + boundary <= u64::MAX,
        ensures
            slotp == old(self).frames.at(p_key)->Meta_0.frames_seq().len(),
            final(self).frames.contains(p_key),
            final(self).frames.contains(current),
            final(self).frames.at(current) == old(self).frames.at(current).with_emb(
                Embedding::InMetaFrame(IndexInFrame { frame: p_key, index: slotp }),
            ),
            final(self).frames.at(p_key) is Meta,
            final(self).frames.at(p_key).wf(),
            final(self).frames.at(p_key)->Meta_0.frames_seq() == old(self).frames.at(
                p_key,
            )->Meta_0.frames_seq().push(current),
            final(self).frames.at(p_key).emb() == old(self).frames.at(p_key).emb(),
            final(self).frames.at(p_key).lvl() == old(self).frames.at(p_key).lvl(),
            final(self).frames.at(p_key).dists().total() == old(self).frames.at(
                p_key,
            ).dists().total() + boundary,
            forall|j: int|
                0 <= j < old(self).frames.at(p_key)->Meta_0.frames_seq().len() ==> final(self).frames.at(p_key).dists().prefix(j) == old(self).frames.at(p_key).dists().prefix(
                    j,
                ),
            final(self).frames.at(p_key).dists().prefix(slotp as int) == old(self).frames.at(
                p_key,
            ).dists().total() + boundary,
            final(self).frames.at(p_key).dists().gap(slotp - 1) == boundary,
            forall|j: int|
                0 <= j < old(self).frames.at(p_key)->Meta_0.frames_seq().len() - 1 ==> final(self).frames.at(p_key).dists().gap(j) == old(self).frames.at(p_key).dists().gap(j),
            forall|k2: FrameKey| #[trigger]
                old(self).frames.contains(k2) ==> final(self).frames.contains(k2),
            forall|k2: FrameKey| #[trigger]
                final(self).frames.contains(k2) ==> old(self).frames.contains(k2),
            forall|k2: FrameKey| #[trigger]
                old(self).frames.contains(k2) && k2 != p_key && k2 != current ==> final(self).frames.at(k2) == old(self).frames.at(k2),
            final(self).frames.slots@.len() == old(self).frames.slots@.len(),
            final(self).root == old(self).root,
            final(self).start == old(self).start,
            final(self).end == old(self).end,
            final(self).len == old(self).len,
            final(self).point_slots@ == old(self).point_slots@,
            final(self).elements@ == old(self).elements@,
    {
        let n = self.frames.get(p_key).len();
        let mut cf = self.frames.take(current);
        cf.embed(Embedding::InMetaFrame(IndexInFrame::new(p_key, n)));
        self.frames.set(current, cf);
        let pf = self.frames.take(p_key);
        let slotp: usize;
        match pf {
            EitherFrame::Meta(mut m) => {
                slotp = m.add_frame(current, boundary);
                self.frames.set(p_key, EitherFrame::Meta(m));
            },
            EitherFrame::Base(b) => {
                proof {
                    assert(false);
                }
                slotp = 0;
                self.frames.set(p_key, EitherFrame::Base(b));
            },
        }
        slotp
    }

    /// Place the new handle into a fresh base frame, wrapped in fresh meta
    /// frames up to the level of the full last child and attached as its new
    /// sibling.
    #[verifier::rlimit(100)]
    fn add_element_split(
        &mut self,
        element: E,
        distance_from_last: u64,
        frame_with_full_last_frame: FrameKey,
        last_frame: FrameKey,
        chg: Ghost<Seq<FrameKey>>,
        l0g: Ghost<Self>,
    ) -> (key: Index)
        requires
            Self::grown_from(*old(self), l0g@),
            old(self).wf(),
            old(self).root is Some,
            l0g@.end == old(self).end,
            l0g@.start == old(self).start,
            l0g@.len == old(self).len,
            l0g@.point_slots@ == old(self).point_slots@,
            l0g@.elements@ == old(self).elements@,
            distance_from_last > 0,
            l0g@.end + distance_from_last <= u64::MAX,
            old(self).point_slots@.len() < usize::MAX,
            old(self).descent_chain(chg@),
            chg@.last() == frame_with_full_last_frame,
            old(self).frames.contains(frame_with_full_last_frame),
            old(self).frames.at(frame_with_full_last_frame) is Meta,
            old(self).frames.at(frame_with_full_last_frame).slots_len() < FRAME_CAPACITY,
            last_frame == old(self).frames.at(
                frame_with_full_last_frame,
            )->Meta_0.frames_seq().last(),
        ensures
            final(self).wf(),
            final(self).len == l0g@.len + 1,
            key.index == l0g@.point_slots@.len(),
            !l0g@.valid(key),
            final(self).valid(key),
            final(self).elements@ == l0g@.elements@.push(Some(element)),
            final(self).point_slots@.len() == l0g@.point_slots@.len() + 1,
            forall|k2: Index|
                l0g@.valid(k2) ==> final(self).valid(k2) && final(self).pos_of(k2)
                    == l0g@.pos_of(k2),
            forall|k2: Index| #[trigger] final(self).valid(k2) ==> k2 == key || l0g@.valid(k2),
            final(self).start == l0g@.start,
            final(self).end == l0g@.end + distance_from_last,
            final(self).pos_of(key) == final(self).end,
            final(self).root is Some,
            final(self).rightmost(final(self).root_key()) == key,
    {
        let ghost l0 = l0g@;
        let ghost l1 = *self;
        let ghost ch = chg@;
        let p_key = frame_with_full_last_frame;
        proof {
            lemma_count_le(l1.point_slots@);
            l1.lemma_chain_offset(ch, ch.len() - 1);
            assert(ch.contains(ch.last())) by {
                assert(ch[ch.len() - 1] == ch.last());
            }
            assert(l1.frame_ok(p_key));
            let n0 = l1.frames.at(p_key)->Meta_0.frames_seq().len() as int;
            assert(l1.child_ok(p_key, n0 - 1));
            l1.lemma_span_nonneg(last_frame);
            assert(l1.span_of(p_key) == l1.frames.at(p_key)->Meta_0.distances.total()
                + l1.span_of(last_frame));
        }
        let length_of_last_frame = self.length_of(last_frame);
        let target_level = self.frames.get(last_frame).level();
        proof {
            assert(l1.frames.at(l1.root_key()).lvl() < l1.frames.slots@.len());
        }
        let (nb_key, point_key, current, freshg) = self.build_fresh_chain(
            element,
            target_level,
        );
        let ghost fresh = freshg@;
        // attach the new chain as a fresh sibling of the full last child
        proof {
            assert(self.frames.contains(p_key) && self.frames.at(p_key) == l1.frames.at(p_key))
                by {
                reveal(PointList::chain_built);
            }
        }
        self.finish_split(
            distance_from_last,
            length_of_last_frame,
            p_key,
            last_frame,
            current,
            nb_key,
            point_key,
            chg,
            freshg,
            l0g,
            Ghost(l1),
        );
        point_key
    }

    /// The facts established by `build_fresh_chain`, bundled: how the mid
    /// state `lm` extends `l1` with the fresh chain.
    #[verifier::opaque]
    pub open spec fn chain_built(
        lm: Self,
        l1: Self,
        fresh: Seq<FrameKey>,
        nb_key: FrameKey,
        key: Index,
    ) -> bool {
        &&& fresh.len() >= 1
        &&& fresh[0] == nb_key
        &&& (forall|k2: FrameKey| #[trigger]
            l1.frames.contains(k2) ==> lm.frames.contains(k2) && lm.frames.at(k2)
                == l1.frames.at(k2))
        &&& (forall|k2: FrameKey| #[trigger]
            lm.frames.contains(k2) ==> l1.frames.contains(k2) || fresh.contains(k2))
        &&& (forall|i: int|
            0 <= i < fresh.len() ==> lm.frames.contains(#[trigger] fresh[i])
                && !l1.frames.contains(fresh[i]))
        &&& lm.frames.at(nb_key) is Base
        &&& lm.frames.at(nb_key)->Base_0.keys_seq() =~= seq![key]
        &&& lm.frames.at(nb_key).wf()
        &&& lm.frames.at(nb_key).dists().total() == 0
        &&& lm.frames.at(nb_key).lvl() == 0
        &&& (forall|i: int|
            1 <= i < fresh.len() ==> lm.frames.at(#[trigger] fresh[i]) is Meta && lm.frames.at(
                fresh[i],
            ).lvl() == i && lm.frames.at(fresh[i]).dists().total() == 0 && lm.frames.at(
                fresh[i],
            )->Meta_0.frames_seq() =~= seq![fresh[i - 1]] && lm.frames.at(fresh[i]).wf())
        &&& (forall|i: int|
            0 <= i < fresh.len() - 1 ==> lm.frames.at(#[trigger] fresh[i]).emb()
                == Embedding::InMetaFrame(IndexInFrame { frame: fresh[i + 1], index: 0 }))
        &&& lm.frames.at(fresh.last()).emb() == Embedding::InList
    }

    /// Attach the freshly built chain as the new last sibling under the
    /// split point and account for the new element.
    fn finish_split(
        &mut self,
        distance_from_last: u64,
        length_of_last_frame: u64,
        p_key: FrameKey,
        l_key: FrameKey,
        current: FrameKey,
        nb_key: FrameKey,
        point_key: Index,
        chg: Ghost<Seq<FrameKey>>,
        freshg: Ghost<Seq<FrameKey>>,
        l0g: Ghost<Self>,
        l1g: Ghost<Self>,
    )
        requires
            Self::grown_from(l1g@, l0g@),
            l1g@.wf(),
            l1g@.root is Some,
            l0g@.end == l1g@.end,
            l0g@.start == l1g@.start,
            l0g@.len == l1g@.len,
            l0g@.point_slots@ == l1g@.point_slots@,
            l0g@.elements@ == l1g@.elements@,
            distance_from_last > 0,
            l0g@.end + distance_from_last <= u64::MAX,
            l1g@.descent_chain(chg@),
            chg@.last() == p_key,
            l1g@.frames.contains(p_key),
            l1g@.frames.at(p_key) is Meta,
            l1g@.frames.at(p_key).slots_len() < FRAME_CAPACITY,
            l_key == l1g@.frames.at(p_key)->Meta_0.frames_seq().last(),
            length_of_last_frame == l1g@.span_of(l_key),
            point_key.index == l1g@.point_slots@.len(),
            l1g@.point_slots@.len() < usize::MAX,
            freshg@.len() - 1 == l1g@.frames.at(l_key).lvl(),
            current == freshg@.last(),
            freshg@[0] == nb_key,
            Self::chain_built(*old(self), l1g@, freshg@, nb_key, point_key),
            old(self).frames.contains(p_key),
            old(self).frames.at(p_key) == l1g@.frames.at(p_key),
            old(self).frames.contains(current),
            !l1g@.frames.contains(current),
            old(self).root == l1g@.root,
            old(self).start == l1g@.start,
            old(self).end == l1g@.end,
            old(self).len == l1g@.len,
            old(self).point_slots@ == l1g@.point_slots@.push(
                Some(IndexInFrame { frame: nb_key, index: 0 }),
            ),
            old(self).elements@.len() == l1g@.elements@.len() + 1,
            old(self).elements@[l1g@.elements@.len() as int] is Some,
            forall|h: int|
                0 <= h < l1g@.elements@.len() ==> old(self).elements@[h] == l1g@.elements@[h],
            old(self).frames.slots@.len() > l1g@.frames.slots@.len(),
        ensures
            final(self).wf(),
            final(self).len == l0g@.len + 1,
            final(self).valid(point_key),
            !l0g@.valid(point_key),
            final(self).elements@ == old(self).elements@,
            final(self).point_slots@ == old(self).point_slots@,
            forall|k2: Index|
                l0g@.valid(k2) ==> final(self).valid(k2) && final(self).pos_of(k2)
                    == l0g@.pos_of(k2),
            forall|k2: Index| #[trigger]
                final(self).valid(k2) ==> k2 == point_key || l0g@.valid(k2),
            final(self).start == l0g@.start,
            final(self).end == l0g@.end + distance_from_last,
            final(self).pos_of(point_key) == final(self).end,
            final(self).root is Some,
            final(self).rightmost(final(self).root_key()) == point_key,
    {
        let ghost l0 = l0g@;
        let ghost l1 = l1g@;
        let ghost ch = chg@;
        let ghost fresh = freshg@;
        proof {
            lemma_count_le(l1.point_slots@);
            l1.lemma_chain_offset(ch, ch.len() - 1);
            assert(ch.contains(ch.last())) by {
                assert(ch[ch.len() - 1] == ch.last());
            }
            assert(l1.frame_ok(p_key));
            let n0 = l1.frames.at(p_key)->Meta_0.frames_seq().len() as int;
            assert(l1.child_ok(p_key, n0 - 1));
            l1.lemma_span_nonneg(l_key);
            assert(l1.span_of(p_key) == l1.frames.at(p_key)->Meta_0.distances.total()
                + l1.span_of(l_key));
            assert(l1.frames.at(p_key).dists().total() >= 0);
            assert(l1.span_of(l_key) <= l1.end - l1.start);
            assert(self.elements@ == l1.elements@.push(
                self.elements@[l1.elements@.len() as int],
            )) by {
                assert(self.elements@ =~= l1.elements@.push(
                    self.elements@[l1.elements@.len() as int],
                ));
            }
        }
        let ghost l_b = *self;
        let slotp = self.attach_fresh_sibling(
            p_key,
            current,
            distance_from_last + length_of_last_frame,
        );
        self.end = self.end + distance_from_last;
        self.len = self.len + 1;
        proof {
            Self::lemma_after_attach(
                *self,
                l_b,
                l0,
                l1,
                ch,
                fresh,
                p_key,
                l_key,
                nb_key,
                point_key,
                distance_from_last,
                slotp,
            );
        }
    }

    /// After the attachment and the end/len updates, the list is
    /// well-formed again, old positions survive, and the new handle sits at
    /// the new end.
    /// First half of the chain-transfer facts after the attachment.
    #[verifier::spinoff_prover]
    #[verifier::rlimit(100)]
    proof fn lemma_attach_chain_a(
        l2: Self,
        l_b: Self,
        l1: Self,
        ch: Seq<FrameKey>,
        fresh: Seq<FrameKey>,
        p_key: FrameKey,
        l_key: FrameKey,
        nb_key: FrameKey,
        point_key: Index,
        distance_from_last: u64,
        slotp: usize,
    )
        requires
            l1.root is Some,
            distance_from_last > 0,
            l1.frames.contains(p_key),
            l1.frames.at(p_key) is Meta,
            l1.frames.at(p_key).slots_len() < FRAME_CAPACITY,
            l_key == l1.frames.at(p_key)->Meta_0.frames_seq().last(),
            fresh.len() - 1 == l1.frames.at(l_key).lvl(),
            fresh.len() >= 1,
            fresh[0] == nb_key,
            Self::chain_built(l_b, l1, fresh, nb_key, point_key),
            l_b.frames.contains(p_key),
            l_b.frames.at(p_key) == l1.frames.at(p_key),
            l_b.frames.contains(fresh.last()),
            !l1.frames.contains(fresh.last()),
            l_b.root == l1.root,
            l_b.start == l1.start,
            l_b.end == l1.end,
            l_b.len == l1.len,
            l_b.point_slots@ == l1.point_slots@.push(
                Some(IndexInFrame { frame: nb_key, index: 0 }),
            ),
            l_b.elements@.len() == l1.elements@.len() + 1,
            l_b.elements@[l1.elements@.len() as int] is Some,
            forall|h: int| 0 <= h < l1.elements@.len() ==> l_b.elements@[h] == l1.elements@[h],
            l_b.frames.slots@.len() > l1.frames.slots@.len(),
            // the effect of the attachment
            slotp == l_b.frames.at(p_key)->Meta_0.frames_seq().len(),
            l2.frames.contains(p_key),
            l2.frames.contains(fresh.last()),
            l2.frames.at(fresh.last()) == l_b.frames.at(fresh.last()).with_emb(
                Embedding::InMetaFrame(IndexInFrame { frame: p_key, index: slotp }),
            ),
            l2.frames.at(p_key) is Meta,
            l2.frames.at(p_key).wf(),
            l2.frames.at(p_key)->Meta_0.frames_seq() == l_b.frames.at(
                p_key,
            )->Meta_0.frames_seq().push(fresh.last()),
            l2.frames.at(p_key).emb() == l_b.frames.at(p_key).emb(),
            l2.frames.at(p_key).lvl() == l_b.frames.at(p_key).lvl(),
            l2.frames.at(p_key).dists().total() == l_b.frames.at(p_key).dists().total()
                + distance_from_last + l1.span_of(l_key),
            forall|j: int|
                0 <= j < l_b.frames.at(p_key)->Meta_0.frames_seq().len() ==> l2.frames.at(
                    p_key,
                ).dists().prefix(j) == l_b.frames.at(p_key).dists().prefix(j),
            l2.frames.at(p_key).dists().prefix(slotp as int) == l_b.frames.at(
                p_key,
            ).dists().total() + distance_from_last + l1.span_of(l_key),
            l2.frames.at(p_key).dists().gap(slotp - 1) == distance_from_last + l1.span_of(l_key),
            forall|j: int|
                0 <= j < l_b.frames.at(p_key)->Meta_0.frames_seq().len() - 1 ==> l2.frames.at(
                    p_key,
                ).dists().gap(j) == l_b.frames.at(p_key).dists().gap(j),
            forall|k2: FrameKey| #[trigger]
                l_b.frames.contains(k2) ==> l2.frames.contains(k2),
            forall|k2: FrameKey| #[trigger]
                l2.frames.contains(k2) ==> l_b.frames.contains(k2),
            forall|k2: FrameKey| #[trigger]
                l_b.frames.contains(k2) && k2 != p_key && k2 != fresh.last() ==> l2.frames.at(k2)
                    == l_b.frames.at(k2),
            l2.frames.slots@.len() == l_b.frames.slots@.len(),
            l2.root == l_b.root,
            l2.start == l_b.start,
            l2.end == l_b.end + distance_from_last,
            l2.len == l_b.len + 1,
            l2.point_slots@ == l_b.point_slots@,
            l2.elements@ == l_b.elements@,
        ensures
            l2.fresh_chain(fresh),
            forall|i: int|
                0 <= i < fresh.len() - 1 ==> l2.frames.at(#[trigger] fresh[i]) == l_b.frames.at(
                    fresh[i],
                ),
            l2.frames.at(fresh[fresh.len() - 1]) == l_b.frames.at(fresh[fresh.len() - 1]).with_emb(
                Embedding::InMetaFrame(
                    IndexInFrame {
                        frame: p_key,
                        index: l1.frames.at(p_key)->Meta_0.frames_seq().len() as usize,
                    },
                ),
            ),
    {
        let n0 = l1.frames.at(p_key)->Meta_0.frames_seq().len() as int;
        let top = fresh[fresh.len() - 1];
        assert forall|i: int| 0 <= i < fresh.len() - 1 implies l2.frames.at(#[trigger] fresh[i])
                == l_b.frames.at(fresh[i]) by {
                reveal(PointList::chain_built);
                assert(l_b.frames.at(fresh[i]).lvl() == i);
                assert(l_b.frames.at(top).lvl() == fresh.len() - 1);
                assert(fresh[i] != top);
                assert(fresh[i] != p_key) by {
                    assert(!l1.frames.contains(fresh[i]));
                }
                assert(l_b.frames.contains(fresh[i]));
            }
            assert(l2.frames.at(top) == l_b.frames.at(top).with_emb(
                Embedding::InMetaFrame(IndexInFrame { frame: p_key, index: n0 as usize }),
            ));
            assert(l2.fresh_chain(fresh)) by {
                reveal(PointList::chain_built);
                assert forall|i: int| 0 <= i < fresh.len() implies l2.frames.contains(
                    #[trigger] fresh[i],
                ) by {
                    assert(l_b.frames.contains(fresh[i]));
                }
                assert(l2.frames.at(fresh[0]) is Base && l2.frames.at(fresh[0]).dists().total()
                    == 0 && l2.frames.at(fresh[0]).lvl() == 0);
                assert forall|i: int| 1 <= i < fresh.len() implies l2.frames.at(
                    #[trigger] fresh[i],
                ) is Meta && l2.frames.at(fresh[i]).lvl() == i && l2.frames.at(
                    fresh[i],
                ).dists().total() == 0 && l2.frames.at(fresh[i])->Meta_0.frames_seq() =~= seq![
                    fresh[i - 1],
                ] by {
                    if i == fresh.len() - 1 {
                        assert(l2.frames.at(fresh[i]) == l_b.frames.at(fresh[i]).with_emb(
                            Embedding::InMetaFrame(
                                IndexInFrame { frame: p_key, index: n0 as usize },
                            ),
                        ));
                    }
                }
            }
    }

    /// Second half of the chain-transfer facts: frame containment is
    /// unchanged by the attachment, and surviving frames keep their state.
    #[verifier::spinoff_prover]
    #[verifier::rlimit(100)]
    proof fn lemma_attach_chain_b(
        l2: Self,
        l_b: Self,
        l1: Self,
        ch: Seq<FrameKey>,
        fresh: Seq<FrameKey>,
        p_key: FrameKey,
        l_key: FrameKey,
        nb_key: FrameKey,
        point_key: Index,
        distance_from_last: u64,
        slotp: usize,
    )
        requires
            l1.root is Some,
            distance_from_last > 0,
            l1.frames.contains(p_key),
            l1.frames.at(p_key) is Meta,
            l1.frames.at(p_key).slots_len() < FRAME_CAPACITY,
            l_key == l1.frames.at(p_key)->Meta_0.frames_seq().last(),
            fresh.len() - 1 == l1.frames.at(l_key).lvl(),
            fresh.len() >= 1,
            fresh[0] == nb_key,
            Self::chain_built(l_b, l1, fresh, nb_key, point_key),
            l_b.frames.contains(p_key),
            l_b.frames.at(p_key) == l1.frames.at(p_key),
            l_b.frames.contains(fresh.last()),
            !l1.frames.contains(fresh.last()),
            l_b.root == l1.root,
            l_b.start == l1.start,
            l_b.end == l1.end,
            l_b.len == l1.len,
            l_b.point_slots@ == l1.point_slots@.push(
                Some(IndexInFrame { frame: nb_key, index: 0 }),
            ),
            l_b.elements@.len() == l1.elements@.len() + 1,
            l_b.elements@[l1.elements@.len() as int] is Some,
            forall|h: int| 0 <= h < l1.elements@.len() ==> l_b.elements@[h] == l1.elements@[h],
            l_b.frames.slots@.len() > l1.frames.slots@.len(),
            // the effect of the attachment
            slotp == l_b.frames.at(p_key)->Meta_0.frames_seq().len(),
            l2.frames.contains(p_key),
            l2.frames.contains(fresh.last()),
            l2.frames.at(fresh.last()) == l_b.frames.at(fresh.last()).with_emb(
                Embedding::InMetaFrame(IndexInFrame { frame: p_key, index: slotp }),
            ),
            l2.frames.at(p_key) is Meta,
            l2.frames.at(p_key).wf(),
            l2.frames.at(p_key)->Meta_0.frames_seq() == l_b.frames.at(
                p_key,
            )->Meta_0.frames_seq().push(fresh.last()),
            l2.frames.at(p_key).emb() == l_b.frames.at(p_key).emb(),
            l2.frames.at(p_key).lvl() == l_b.frames.at(p_key).lvl(),
            l2.frames.at(p_key).dists().total() == l_b.frames.at(p_key).dists().total()
                + distance_from_last + l1.span_of(l_key),
            forall|j: int|
                0 <= j < l_b.frames.at(p_key)->Meta_0.frames_seq().len() ==> l2.frames.at(
                    p_key,
                ).dists().prefix(j) == l_b.frames.at(p_key).dists().prefix(j),
            l2.frames.at(p_key).dists().prefix(slotp as int) == l_b.frames.at(
                p_key,
            ).dists().total() + distance_from_last + l1.span_of(l_key),
            l2.frames.at(p_key).dists().gap(slotp - 1) == distance_from_last + l1.span_of(l_key),
            forall|j: int|
                0 <= j < l_b.frames.at(p_key)->Meta_0.frames_seq().len() - 1 ==> l2.frames.at(
                    p_key,
                ).dists().gap(j) == l_b.frames.at(p_key).dists().gap(j),
            forall|k2: FrameKey| #[trigger]
                l_b.frames.contains(k2) ==> l2.frames.contains(k2),
            forall|k2: FrameKey| #[trigger]
                l2.frames.contains(k2) ==> l_b.frames.contains(k2),
            forall|k2: FrameKey| #[trigger]
                l_b.frames.contains(k2) && k2 != p_key && k2 != fresh.last() ==> l2.frames.at(k2)
                    == l_b.frames.at(k2),
            l2.frames.slots@.len() == l_b.frames.slots@.len(),
            l2.root == l_b.root,
            l2.start == l_b.start,
            l2.end == l_b.end + distance_from_last,
            l2.len == l_b.len + 1,
            l2.point_slots@ == l_b.point_slots@,
            l2.elements@ == l_b.elements@,
        ensures
            l2.fresh_chain(fresh),
            forall|i: int| 0 <= i < fresh.len() ==> l2.frames.at(#[trigger] fresh[i]).wf(),
            forall|k2: FrameKey| #[trigger] l1.frames.contains(k2) ==> l2.frames.contains(k2),
            forall|k2: FrameKey| #[trigger]
                l2.frames.contains(k2) ==> l1.frames.contains(k2) || fresh.contains(k2),
            forall|k2: FrameKey| #[trigger]
                l1.frames.contains(k2) && k2 != p_key ==> l2.frames.at(k2) == l1.frames.at(k2),
    {
        Self::lemma_attach_chain_a(
            l2,
            l_b,
            l1,
            ch,
            fresh,
            p_key,
            l_key,
            nb_key,
            point_key,
            distance_from_last,
            slotp,
        );
        let n0 = l1.frames.at(p_key)->Meta_0.frames_seq().len() as int;
        let top = fresh[fresh.len() - 1];
            assert(forall|i: int|
                0 <= i < fresh.len() ==> l2.frames.at(#[trigger] fresh[i]).wf()) by {
                reveal(PointList::chain_built);
                assert forall|i: int| 0 <= i < fresh.len() implies l2.frames.at(
                    #[trigger] fresh[i],
                ).wf() by {
                    if i == fresh.len() - 1 {
                        assert(l2.frames.at(fresh[i]) == l_b.frames.at(fresh[i]).with_emb(
                            Embedding::InMetaFrame(
                                IndexInFrame { frame: p_key, index: n0 as usize },
                            ),
                        ));
                    }
                }
            }
            assert(forall|k2: FrameKey| #[trigger]
                l1.frames.contains(k2) ==> l2.frames.contains(k2)) by {
                reveal(PointList::chain_built);
                assert forall|k2: FrameKey| #[trigger] l1.frames.contains(k2)
                    implies l2.frames.contains(k2) by {
                    assert(l_b.frames.contains(k2));
                }
            }
            assert(forall|k2: FrameKey| #[trigger]
                l2.frames.contains(k2) ==> l1.frames.contains(k2) || fresh.contains(k2)) by {
                reveal(PointList::chain_built);
                assert forall|k2: FrameKey| #[trigger] l2.frames.contains(k2)
                    implies l1.frames.contains(k2) || fresh.contains(k2) by {
                    assert(l_b.frames.contains(k2));
                }
            }
            assert(forall|k2: FrameKey| #[trigger]
                l1.frames.contains(k2) && k2 != p_key ==> l2.frames.at(k2) == l1.frames.at(
                    k2,
                )) by {
                reveal(PointList::chain_built);
                assert forall|k2: FrameKey| #[trigger]
                    l1.frames.contains(k2) && k2 != p_key implies l2.frames.at(k2) == l1.frames.at(
                    k2,
                ) by {
                    assert(l_b.frames.contains(k2));
                    assert(l_b.frames.at(k2) == l1.frames.at(k2));
                    assert(k2 != fresh.last()) by {
                        assert(!l1.frames.contains(fresh.last())) by {
                            assert(fresh[fresh.len() - 1] == fresh.last());
                        }
                    }
                }
            }
    }

    /// After the attachment, the fresh chain facts transfer to the new
    /// state: only its top frame changed, and only in its embedding.
    #[verifier::spinoff_prover]
    #[verifier::rlimit(100)]
    proof fn lemma_attach_chain(
        l2: Self,
        l_b: Self,
        l1: Self,
        ch: Seq<FrameKey>,
        fresh: Seq<FrameKey>,
        p_key: FrameKey,
        l_key: FrameKey,
        nb_key: FrameKey,
        point_key: Index,
        distance_from_last: u64,
        slotp: usize,
    )
        requires
            l1.root is Some,
            distance_from_last > 0,
            l1.frames.contains(p_key),
            l1.frames.at(p_key) is Meta,
            l1.frames.at(p_key).slots_len() < FRAME_CAPACITY,
            l_key == l1.frames.at(p_key)->Meta_0.frames_seq().last(),
            fresh.len() - 1 == l1.frames.at(l_key).lvl(),
            fresh.len() >= 1,
            fresh[0] == nb_key,
            Self::chain_built(l_b, l1, fresh, nb_key, point_key),
            l_b.frames.contains(p_key),
            l_b.frames.at(p_key) == l1.frames.at(p_key),
            l_b.frames.contains(fresh.last()),
            !l1.frames.contains(fresh.last()),
            l_b.root == l1.root,
            l_b.start == l1.start,
            l_b.end == l1.end,
            l_b.len == l1.len,
            l_b.point_slots@ == l1.point_slots@.push(
                Some(IndexInFrame { frame: nb_key, index: 0 }),
            ),
            l_b.elements@.len() == l1.elements@.len() + 1,
            l_b.elements@[l1.elements@.len() as int] is Some,
            forall|h: int| 0 <= h < l1.elements@.len() ==> l_b.elements@[h] == l1.elements@[h],
            l_b.frames.slots@.len() > l1.frames.slots@.len(),
            // the effect of the attachment
            slotp == l_b.frames.at(p_key)->Meta_0.frames_seq().len(),
            l2.frames.contains(p_key),
            l2.frames.contains(fresh.last()),
            l2.frames.at(fresh.last()) == l_b.frames.at(fresh.last()).with_emb(
                Embedding::InMetaFrame(IndexInFrame { frame: p_key, index: slotp }),
            ),
            l2.frames.at(p_key) is Meta,
            l2.frames.at(p_key).wf(),
            l2.frames.at(p_key)->Meta_0.frames_seq() == l_b.frames.at(
                p_key,
            )->Meta_0.frames_seq().push(fresh.last()),
            l2.frames.at(p_key).emb() == l_b.frames.at(p_key).emb(),
            l2.frames.at(p_key).lvl() == l_b.frames.at(p_key).lvl(),
            l2.frames.at(p_key).dists().total() == l_b.frames.at(p_key).dists().total()
                + distance_from_last + l1.span_of(l_key),
            forall|j: int|
                0 <= j < l_b.frames.at(p_key)->Meta_0.frames_seq().len() ==> l2.frames.at(
                    p_key,
                ).dists().prefix(j) == l_b.frames.at(p_key).dists().prefix(j),
            l2.frames.at(p_key).dists().prefix(slotp as int) == l_b.frames.at(
                p_key,
            ).dists().total() + distance_from_last + l1.span_of(l_key),
            l2.frames.at(p_key).dists().gap(slotp - 1) == distance_from_last + l1.span_of(l_key),
            forall|j: int|
                0 <= j < l_b.frames.at(p_key)->Meta_0.frames_seq().len() - 1 ==> l2.frames.at(
                    p_key,
                ).dists().gap(j) == l_b.frames.at(p_key).dists().gap(j),
            forall|k2: FrameKey| #[trigger]
                l_b.frames.contains(k2) ==> l2.frames.contains(k2),
            forall|k2: FrameKey| #[trigger]
                l2.frames.contains(k2) ==> l_b.frames.contains(k2),
            forall|k2: FrameKey| #[trigger]
                l_b.frames.contains(k2) && k2 != p_key && k2 != fresh.last() ==> l2.frames.at(k2)
                    == l_b.frames.at(k2),
            l2.frames.slots@.len() == l_b.frames.slots@.len(),
            l2.root == l_b.root,
            l2.start == l_b.start,
            l2.end == l_b.end + distance_from_last,
            l2.len == l_b.len + 1,
            l2.point_slots@ == l_b.point_slots@,
            l2.elements@ == l_b.elements@,
        ensures
            l2.fresh_chain(fresh),
            forall|i: int| 0 <= i < fresh.len() ==> l2.frames.at(#[trigger] fresh[i]).wf(),
            l2.frames.at(nb_key)->Base_0.keys_seq() =~= seq![point_key],
            forall|k2: FrameKey| #[trigger] l1.frames.contains(k2) ==> l2.frames.contains(k2),
            forall|k2: FrameKey| #[trigger]
                l2.frames.contains(k2) ==> l1.frames.contains(k2) || fresh.contains(k2),
            forall|k2: FrameKey| #[trigger]
                l1.frames.contains(k2) && k2 != p_key ==> l2.frames.at(k2) == l1.frames.at(k2),
            l2.frames.at(fresh[fresh.len() - 1]).emb() == Embedding::InMetaFrame(
                IndexInFrame {
                    frame: p_key,
                    index: l1.frames.at(p_key)->Meta_0.frames_seq().len() as usize,
                },
            ),
            forall|i: int|
                0 <= i < fresh.len() - 1 ==> l2.frames.at(#[trigger] fresh[i]).emb()
                    == Embedding::InMetaFrame(IndexInFrame { frame: fresh[i + 1], index: 0 }),
            l2.frames.at(p_key)->Meta_0.frames_seq() == l1.frames.at(
                p_key,
            )->Meta_0.frames_seq().push(fresh[fresh.len() - 1]),
    {
        Self::lemma_attach_chain_b(
            l2,
            l_b,
            l1,
            ch,
            fresh,
            p_key,
            l_key,
            nb_key,
            point_key,
            distance_from_last,
            slotp,
        );
        let n0 = l1.frames.at(p_key)->Meta_0.frames_seq().len() as int;
            assert forall|i: int| 0 <= i < fresh.len() - 1 implies l2.frames.at(
                #[trigger] fresh[i],
            ).emb() == Embedding::InMetaFrame(IndexInFrame { frame: fresh[i + 1], index: 0 }) by {
                reveal(PointList::chain_built);
                assert(l2.frames.at(fresh[i]) == l_b.frames.at(fresh[i]));
            }
            assert(l2.frames.at(nb_key)->Base_0.keys_seq() =~= seq![point_key]) by {
                reveal(PointList::chain_built);
                assert(fresh[0] == nb_key);
                if fresh.len() > 1 {
                    assert(l2.frames.at(nb_key) == l_b.frames.at(nb_key));
                } else {
                    assert(l2.frames.at(nb_key) == l_b.frames.at(nb_key).with_emb(
                        Embedding::InMetaFrame(IndexInFrame { frame: p_key, index: n0 as usize }),
                    ));
                }
            }
        }

    /// The structural shape of a split append holds after the attachment.
    #[verifier::spinoff_prover]
    #[verifier::rlimit(100)]
    proof fn lemma_attach_shape(
        l2: Self,
        l_b: Self,
        l1: Self,
        ch: Seq<FrameKey>,
        fresh: Seq<FrameKey>,
        p_key: FrameKey,
        l_key: FrameKey,
        nb_key: FrameKey,
        point_key: Index,
        distance_from_last: u64,
        slotp: usize,
    )
        requires
            l1.root is Some,
            distance_from_last > 0,
            l1.descent_chain(ch),
            ch.last() == p_key,
            l1.frames.contains(p_key),
            l1.frames.at(p_key) is Meta,
            l1.frames.at(p_key).slots_len() < FRAME_CAPACITY,
            l_key == l1.frames.at(p_key)->Meta_0.frames_seq().last(),
            fresh.len() - 1 == l1.frames.at(l_key).lvl(),
            fresh.len() >= 1,
            fresh[0] == nb_key,
            Self::chain_built(l_b, l1, fresh, nb_key, point_key),
            l_b.frames.contains(p_key),
            l_b.frames.at(p_key) == l1.frames.at(p_key),
            l_b.frames.contains(fresh.last()),
            !l1.frames.contains(fresh.last()),
            l_b.root == l1.root,
            l_b.start == l1.start,
            l_b.end == l1.end,
            l_b.len == l1.len,
            l_b.point_slots@ == l1.point_slots@.push(
                Some(IndexInFrame { frame: nb_key, index: 0 }),
            ),
            l_b.elements@.len() == l1.elements@.len() + 1,
            l_b.elements@[l1.elements@.len() as int] is Some,
            forall|h: int| 0 <= h < l1.elements@.len() ==> l_b.elements@[h] == l1.elements@[h],
            l_b.frames.slots@.len() > l1.frames.slots@.len(),
            // the effect of the attachment
            slotp == l_b.frames.at(p_key)->Meta_0.frames_seq().len(),
            l2.frames.contains(p_key),
            l2.frames.contains(fresh.last()),
            l2.frames.at(fresh.last()) == l_b.frames.at(fresh.last()).with_emb(
                Embedding::InMetaFrame(IndexInFrame { frame: p_key, index: slotp }),
            ),
            l2.frames.at(p_key) is Meta,
            l2.frames.at(p_key).wf(),
            l2.frames.at(p_key)->Meta_0.frames_seq() == l_b.frames.at(
                p_key,
            )->Meta_0.frames_seq().push(fresh.last()),
            l2.frames.at(p_key).emb() == l_b.frames.at(p_key).emb(),
            l2.frames.at(p_key).lvl() == l_b.frames.at(p_key).lvl(),
            l2.frames.at(p_key).dists().total() == l_b.frames.at(p_key).dists().total()
                + distance_from_last + l1.span_of(l_key),
            forall|j: int|
                0 <= j < l_b.frames.at(p_key)->Meta_0.frames_seq().len() ==> l2.frames.at(
                    p_key,
                ).dists().prefix(j) == l_b.frames.at(p_key).dists().prefix(j),
            l2.frames.at(p_key).dists().prefix(slotp as int) == l_b.frames.at(
                p_key,
            ).dists().total() + distance_from_last + l1.span_of(l_key),
            l2.frames.at(p_key).dists().gap(slotp - 1) == distance_from_last + l1.span_of(l_key),
            forall|j: int|
                0 <= j < l_b.frames.at(p_key)->Meta_0.frames_seq().len() - 1 ==> l2.frames.at(
                    p_key,
                ).dists().gap(j) == l_b.frames.at(p_key).dists().gap(j),
            forall|k2: FrameKey| #[trigger]
                l_b.frames.contains(k2) ==> l2.frames.contains(k2),
            forall|k2: FrameKey| #[trigger]
                l2.frames.contains(k2) ==> l_b.frames.contains(k2),
            forall|k2: FrameKey| #[trigger]
                l_b.frames.contains(k2) && k2 != p_key && k2 != fresh.last() ==> l2.frames.at(k2)
                    == l_b.frames.at(k2),
            l2.frames.slots@.len() == l_b.frames.slots@.len(),
            l2.root == l_b.root,
            l2.start == l_b.start,
            l2.end == l_b.end + distance_from_last,
            l2.len == l_b.len + 1,
            l2.point_slots@ == l_b.point_slots@,
            l2.elements@ == l_b.elements@,
        ensures
            Self::split_shape(
                l2,
                l1,
                ch,
                fresh,
                p_key,
                l_key,
                nb_key,
                point_key,
                distance_from_last,
            ),
    {
        Self::lemma_attach_chain(
            l2,
            l_b,
            l1,
            ch,
            fresh,
            p_key,
            l_key,
            nb_key,
            point_key,
            distance_from_last,
            slotp,
        );
        let n0 = l1.frames.at(p_key)->Meta_0.frames_seq().len() as int;
        let top = fresh[fresh.len() - 1];
        assert(Self::split_shape(
            l2,
            l1,
            ch,
            fresh,
            p_key,
            l_key,
            nb_key,
            point_key,
            distance_from_last,
        )) by {
            reveal(PointList::split_shape);
            reveal(PointList::chain_built);
            assert(l2.frames.at(p_key)->Meta_0.frames_seq() == l1.frames.at(
                p_key,
            )->Meta_0.frames_seq().push(top));
            assert(forall|i: int|
                0 <= i < fresh.len() ==> !l1.frames.contains(#[trigger] fresh[i]));
        }
    }

    /// After the attachment and the end/len updates, the list is
    /// well-formed again, old positions survive, and the new handle sits at
    /// the new end.

    #[verifier::rlimit(100)]
    proof fn lemma_after_attach(
        l2: Self,
        l_b: Self,
        l0: Self,
        l1: Self,
        ch: Seq<FrameKey>,
        fresh: Seq<FrameKey>,
        p_key: FrameKey,
        l_key: FrameKey,
        nb_key: FrameKey,
        point_key: Index,
        distance_from_last: u64,
        slotp: usize,
    )
        requires
            Self::grown_from(l1, l0),
            l1.wf(),
            l1.root is Some,
            l0.end == l1.end,
            l0.start == l1.start,
            l0.len == l1.len,
            l0.point_slots@ == l1.point_slots@,
            l0.elements@ == l1.elements@,
            distance_from_last > 0,
            l0.end + distance_from_last <= u64::MAX,
            l1.descent_chain(ch),
            ch.last() == p_key,
            l1.frames.contains(p_key),
            l1.frames.at(p_key) is Meta,
            l1.frames.at(p_key).slots_len() < FRAME_CAPACITY,
            l_key == l1.frames.at(p_key)->Meta_0.frames_seq().last(),
            point_key.index == l1.point_slots@.len(),
            l1.point_slots@.len() < usize::MAX,
            fresh.len() - 1 == l1.frames.at(l_key).lvl(),
            fresh.len() >= 1,
            fresh[0] == nb_key,
            Self::chain_built(l_b, l1, fresh, nb_key, point_key),
            l_b.frames.contains(p_key),
            l_b.frames.at(p_key) == l1.frames.at(p_key),
            l_b.frames.contains(fresh.last()),
            !l1.frames.contains(fresh.last()),
            l_b.root == l1.root,
            l_b.start == l1.start,
            l_b.end == l1.end,
            l_b.len == l1.len,
            l_b.point_slots@ == l1.point_slots@.push(
                Some(IndexInFrame { frame: nb_key, index: 0 }),
            ),
            l_b.elements@.len() == l1.elements@.len() + 1,
            l_b.elements@[l1.elements@.len() as int] is Some,
            forall|h: int| 0 <= h < l1.elements@.len() ==> l_b.elements@[h] == l1.elements@[h],
            l_b.frames.slots@.len() > l1.frames.slots@.len(),
            // the effect of the attachment
            slotp == l_b.frames.at(p_key)->Meta_0.frames_seq().len(),
            l2.frames.contains(p_key),
            l2.frames.contains(fresh.last()),
            l2.frames.at(fresh.last()) == l_b.frames.at(fresh.last()).with_emb(
                Embedding::InMetaFrame(IndexInFrame { frame: p_key, index: slotp }),
            ),
            l2.frames.at(p_key) is Meta,
            l2.frames.at(p_key).wf(),
            l2.frames.at(p_key)->Meta_0.frames_seq() == l_b.frames.at(
                p_key,
            )->Meta_0.frames_seq().push(fresh.last()),
            l2.frames.at(p_key).emb() == l_b.frames.at(p_key).emb(),
            l2.frames.at(p_key).lvl() == l_b.frames.at(p_key).lvl(),
            l2.frames.at(p_key).dists().total() == l_b.frames.at(p_key).dists().total()
                + distance_from_last + l1.span_of(l_key),
            forall|j: int|
                0 <= j < l_b.frames.at(p_key)->Meta_0.frames_seq().len() ==> l2.frames.at(
                    p_key,
                ).dists().prefix(j) == l_b.frames.at(p_key).dists().prefix(j),
            l2.frames.at(p_key).dists().prefix(slotp as int) == l_b.frames.at(
                p_key,
            ).dists().total() + distance_from_last + l1.span_of(l_key),
            l2.frames.at(p_key).dists().gap(slotp - 1) == distance_from_last + l1.span_of(l_key),
            forall|j: int|
                0 <= j < l_b.frames.at(p_key)->Meta_0.frames_seq().len() - 1 ==> l2.frames.at(
                    p_key,
                ).dists().gap(j) == l_b.frames.at(p_key).dists().gap(j),
            forall|k2: FrameKey| #[trigger]
                l_b.frames.contains(k2) ==> l2.frames.contains(k2),
            forall|k2: FrameKey| #[trigger]
                l2.frames.contains(k2) ==> l_b.frames.contains(k2),
            forall|k2: FrameKey| #[trigger]
                l_b.frames.contains(k2) && k2 != p_key && k2 != fresh.last() ==> l2.frames.at(k2)
                    == l_b.frames.at(k2),
            l2.frames.slots@.len() == l_b.frames.slots@.len(),
            l2.root == l_b.root,
            l2.start == l_b.start,
            l2.end == l_b.end + distance_from_last,
            l2.len == l_b.len + 1,
            l2.point_slots@ == l_b.point_slots@,
            l2.elements@ == l_b.elements@,
        ensures
            l2.wf(),
            l2.valid(point_key),
            !l0.valid(point_key),
            l2.pos_of(point_key) == l2.end,
            forall|k2: Index|
                l0.valid(k2) ==> l2.valid(k2) && l2.pos_of(k2) == l0.pos_of(k2),
            forall|k2: Index| #[trigger] l2.valid(k2) ==> k2 == point_key || l0.valid(k2),
            l2.root is Some,
            l2.rightmost(l2.root_key()) == point_key,
    {
        assert(l1.frame_ok(p_key));
        assert(l1.child_ok(p_key, l1.frames.at(p_key)->Meta_0.frames_seq().len() - 1));
        l1.lemma_span_nonneg(l_key);
            let n0 = l1.frames.at(p_key)->Meta_0.frames_seq().len() as int;
            let top = fresh[fresh.len() - 1];
            // frames below the chain top are untouched by the attachment
            Self::lemma_attach_shape(
            l2,
            l_b,
            l1,
            ch,
            fresh,
            p_key,
            l_key,
            nb_key,
            point_key,
            distance_from_last,
            slotp,
        );
        assert(l2.elements@ == l1.elements@.push(l2.elements@.last())) by {
            assert(l2.elements@ =~= l1.elements@.push(
                l2.elements@[l1.elements@.len() as int],
            ));
        }
            Self::lemma_split_case(
                l2,
                l0,
                l1,
                ch,
                fresh,
                p_key,
                l_key,
                nb_key,
                point_key,
                distance_from_last,
                l2.elements@.last(),
            );
        assert(l2.root is Some);
        Self::lemma_rightmost_split(
            l2,
            l1,
            ch,
            fresh,
            p_key,
            l_key,
            nb_key,
            point_key,
            distance_from_last,
        );
    }

    /// Direct append: the deepest base frame on the rightmost spine had
    /// room and took the new handle.  Everything stays well-formed, every
    /// old element keeps its position, and the new handle sits at the new
    /// end.
    #[verifier::rlimit(100)]
    proof fn lemma_direct_case(
        l2: Self,
        l0: Self,
        l1: Self,
        ch: Seq<FrameKey>,
        b_key: FrameKey,
        key: Index,
        delta: u64,
        elem_opt: Option<E>,
    )
        requires
            Self::grown_from(l1, l0),
            delta > 0,
            l0.end + delta <= u64::MAX,
            l1.descent_chain(ch),
            ch.last() == b_key,
            l1.frames.contains(b_key),
            l1.frames.at(b_key) is Base,
            l1.frames.at(b_key).slots_len() < FRAME_CAPACITY,
            key.index == l1.point_slots@.len(),
            l2.root == l1.root,
            l2.start == l1.start,
            l2.end == l1.end + delta,
            l2.len == l1.len + 1,
            elem_opt is Some,
            l2.point_slots@ == l1.point_slots@.push(
                Some(
                    IndexInFrame {
                        frame: b_key,
                        index: l1.frames.at(b_key)->Base_0.keys_seq().len() as usize,
                    },
                ),
            ),
            l2.elements@ == l1.elements@.push(elem_opt),
            l2.frames.slots@.len() == l1.frames.slots@.len(),
            forall|k2: FrameKey| #[trigger]
                l1.frames.contains(k2) ==> l2.frames.contains(k2),
            forall|k2: FrameKey| #[trigger]
                l2.frames.contains(k2) ==> l1.frames.contains(k2),
            forall|k2: FrameKey| #[trigger]
                l1.frames.contains(k2) && k2 != b_key ==> l2.frames.at(k2) == l1.frames.at(k2),
            l2.frames.at(b_key) is Base,
            l2.frames.at(b_key).wf(),
            l2.frames.at(b_key)->Base_0.keys_seq() == l1.frames.at(b_key)->Base_0.keys_seq().push(
                key,
            ),
            l2.frames.at(b_key).emb() == l1.frames.at(b_key).emb(),
            l2.frames.at(b_key).dists().total() == l1.frames.at(b_key).dists().total() + delta,
            forall|j: int|
                0 <= j < l1.frames.at(b_key)->Base_0.keys_seq().len() ==> l2.frames.at(
                    b_key,
                ).dists().prefix(j) == l1.frames.at(b_key).dists().prefix(j),
            l2.frames.at(b_key).dists().prefix(
                l1.frames.at(b_key)->Base_0.keys_seq().len() as int,
            ) == l1.frames.at(b_key).dists().total() + delta,
        ensures
            l2.wf(),
            l2.valid(key),
            !l0.valid(key),
            l2.pos_of(key) == l2.end,
            forall|k2: Index|
                l0.valid(k2) ==> l2.valid(k2) && l2.pos_of(k2) == l0.pos_of(k2),
            forall|k2: Index| #[trigger] l2.valid(k2) ==> k2 == key || l0.valid(k2),
            l2.rightmost(l2.root_key()) == key,
    {
        reveal(PointList::grown_from);
        let old_b = l1.frames.at(b_key);
        let new_b = l2.frames.at(b_key);
        let oldlen = old_b->Base_0.keys_seq().len() as int;
        assert(l1.frame_ok(b_key));
        assert(ch.contains(b_key)) by {
            assert(ch[ch.len() - 1] == b_key);
        }
        assert(l1.span_of(b_key) == old_b.dists().total());
        assert(l2.span_of(b_key) == new_b.dists().total());
        assert(l2.lvl_of(b_key) == l1.lvl_of(b_key));
        assert forall|j: int| 0 <= j < ch.len() - 1 implies l2.frames.at(#[trigger] ch[j])
            == l1.frames.at(ch[j]) by {
            assert(l1.frames.contains(ch[j]));
            assert(l1.frames.at(ch[j]) is Meta);
        }
        Self::lemma_chain_span_delta(l1, l2, ch, delta as int, 0);
        assert(l2.root_lvl() == l1.root_lvl()) by {
            if l1.root_key() == b_key {
                assert(l2.frames.at(b_key).lvl() == 0);
            }
        }
        // the tree stays well-formed frame by frame
        assert forall|k: FrameKey| #[trigger] l2.frames.contains(k) implies l2.frame_ok(k) by {
            assert(l1.frames.contains(k));
            assert(l1.frame_ok(k));
            if k != b_key {
                assert(l2.frames.at(k) == l1.frames.at(k));
            }
            match l1.frames.at(k).emb() {
                Embedding::InList => {},
                Embedding::InMetaFrame(iif) => {
                    assert(l1.frame_ok(iif.frame));
                    assert(iif.frame != b_key);
                },
            }
            if l2.frames.at(k) is Meta {
                let m = l1.frames.at(k)->Meta_0;
                let n = m.frames_seq().len() as int;
                assert forall|j: int| 0 <= j < n implies #[trigger] l2.child_ok(k, j) by {
                    assert(l1.child_ok(k, j));
                    let c = m.frames_seq()[j];
                    if j < n - 1 {
                        l1.lemma_nonlast_child_off_chain(ch, k, j);
                        assert(c != b_key);
                        Self::lemma_span_off_chain(l1, l2, ch, c);
                    }
                    if c == b_key {
                        assert(l2.frames.at(c).emb() == l1.frames.at(c).emb());
                        assert(l2.frames.at(c).lvl() == l1.frames.at(c).lvl());
                    }
                }
            }
        }
        // handle tables stay consistent
        assert(l2.points_wf()) by {
            assert forall|h: int|
                0 <= h < l2.point_slots@.len() && #[trigger] l2.point_slots@[h] is Some
                implies l2.handle_ok(h) by {
                if h < l1.point_slots@.len() {
                    assert(l1.point_slots@[h] is Some);
                    assert(l1.handle_ok(h));
                    let loc = l1.point_slots@[h]->Some_0;
                    if loc.frame == b_key {
                        assert(l2.frames.at(b_key)->Base_0.keys_seq()[loc.index as int]
                            == l1.frames.at(b_key)->Base_0.keys_seq()[loc.index as int]);
                    }
                } else {
                    assert(l2.point_slots@[h] == Some(
                        IndexInFrame { frame: b_key, index: oldlen as usize },
                    ));
                    assert(l2.frames.at(b_key)->Base_0.keys_seq()[oldlen] == key);
                }
            }
        }
        assert(l2.keys_wf()) by {
            assert forall|k: FrameKey, j: int|
                l2.frames.contains(k) && l2.frames.at(k) is Base && 0 <= j < l2.frames.at(
                    k,
                ).slots_len() implies #[trigger] l2.key_ok(k, j) by {
                assert(l1.frames.contains(k));
                if k != b_key {
                    assert(l1.key_ok(k, j));
                    let key2 = l1.frames.at(k)->Base_0.keys_seq()[j];
                    assert(l2.point_slots@[key2.index as int] == l1.point_slots@[
                        key2.index as int]);
                } else {
                    if j < oldlen {
                        assert(l1.key_ok(k, j));
                        let key2 = l1.frames.at(k)->Base_0.keys_seq()[j];
                        assert(l2.point_slots@[key2.index as int] == l1.point_slots@[
                            key2.index as int]);
                        assert(l2.frames.at(k)->Base_0.keys_seq()[j] == key2);
                    } else {
                        assert(l2.frames.at(k)->Base_0.keys_seq()[j] == key);
                        assert(l2.point_slots@[key.index as int] == Some(
                            IndexInFrame { frame: b_key, index: oldlen as usize },
                        ));
                    }
                }
            }
        }
        lemma_count_push(
            l1.point_slots@,
            Some(IndexInFrame { frame: b_key, index: oldlen as usize }),
        );
        // positions: old handles are untouched
        assert forall|k2: FrameKey| #[trigger]
            l1.frames.contains(k2) implies l2.frames.contains(k2) && l2.frames.at(k2).emb()
            == l1.frames.at(k2).emb() && l2.frames.at(k2).lvl() == l1.frames.at(k2).lvl() by {
            if k2 == b_key {
                assert(l2.frames.at(k2).lvl() == 0);
            }
        }
        assert forall|k2: FrameKey| #[trigger]
            l1.frames.contains(k2) implies match l1.frames.at(k2).emb() {
            Embedding::InMetaFrame(iif) => l2.frames.at(iif.frame).dists().prefix(iif.index as int)
                == l1.frames.at(iif.frame).dists().prefix(iif.index as int),
            Embedding::InList => true,
        } by {
            assert(l1.frame_ok(k2));
            match l1.frames.at(k2).emb() {
                Embedding::InMetaFrame(iif) => {
                    assert(l1.frame_ok(iif.frame));
                    assert(iif.frame != b_key);
                },
                Embedding::InList => {},
            }
        }
        assert forall|k2: Index| l0.valid(k2) implies l2.valid(k2) && l2.pos_of(k2) == l0.pos_of(
            k2,
        ) by {
            assert(l1.valid(k2));
            assert(l1.handle_ok(k2.index as int));
            let loc = l1.loc_of(k2);
            assert(l2.point_slots@[k2.index as int] == l1.point_slots@[k2.index as int]);
            Self::lemma_rel_same(l1, l2, loc.frame);
            if loc.frame == b_key {
                assert(loc.index < oldlen);
            }
        }
        // the new handle sits at the new end
        assert(l2.valid(key));
        assert(l2.loc_of(key) == IndexInFrame { frame: b_key, index: oldlen as usize });
        Self::lemma_rel_same(l1, l2, b_key);
        l1.lemma_chain_offset(ch, ch.len() - 1);
        assert(l2.pos_of(key) == l2.start + l1.frame_offset(b_key) + old_b.dists().total()
            + delta);
        assert(l2.pos_of(key) == l2.end);
        assert forall|k2: Index| #[trigger] l2.valid(k2) implies k2 == key || l0.valid(k2) by {
            if k2.index < l1.point_slots@.len() {
                assert(l1.valid(k2));
            } else {
                assert(k2.index == key.index);
            }
        }
        assert(l2.wf());
        // the appended handle becomes the rightmost element
        assert(l2.descent_chain(ch)) by {
            assert forall|j: int| 0 <= j < ch.len() implies l2.frames.contains(
                #[trigger] ch[j],
            ) by {
                assert(l1.frames.contains(ch[j]));
            }
        }
        l2.lemma_chain_rightmost(ch, 0);
        assert(l2.rightmost(b_key) == key);
    }

    /// The structural relationship between the list before (`l1`) and after
    /// (`l2`) a split append: the fresh chain `fresh` wraps the new base
    /// frame `nb_key` and hangs as a new last sibling under `p_key`, whose
    /// boundary gap covers the distance plus the span of the old last child
    /// `l_key`; nothing else changed.
    #[verifier::opaque]
    pub open spec fn split_shape(
        l2: Self,
        l1: Self,
        ch: Seq<FrameKey>,
        fresh: Seq<FrameKey>,
        p_key: FrameKey,
        l_key: FrameKey,
        nb_key: FrameKey,
        key: Index,
        delta: u64,
    ) -> bool {
        &&& l1.descent_chain(ch)
        &&& ch.last() == p_key
        &&& l1.frames.contains(p_key)
        &&& l1.frames.at(p_key) is Meta
        &&& l1.frames.at(p_key).slots_len() < FRAME_CAPACITY
        &&& l_key == l1.frames.at(p_key)->Meta_0.frames_seq().last()
        &&& l2.root == l1.root
        &&& l2.fresh_chain(fresh)
        &&& fresh[0] == nb_key
        &&& fresh.len() - 1 == l1.frames.at(l_key).lvl()
        &&& l2.frames.at(nb_key)->Base_0.keys_seq() =~= seq![key]
        &&& (forall|i: int| 0 <= i < fresh.len() ==> l2.frames.at(#[trigger] fresh[i]).wf())
        &&& (forall|i: int| 0 <= i < fresh.len() ==> !l1.frames.contains(#[trigger] fresh[i]))
        &&& (forall|i: int|
            0 <= i < fresh.len() - 1 ==> l2.frames.at(#[trigger] fresh[i]).emb()
                == Embedding::InMetaFrame(IndexInFrame { frame: fresh[i + 1], index: 0 }))
        &&& l2.frames.at(fresh[fresh.len() - 1]).emb() == Embedding::InMetaFrame(
            IndexInFrame {
                frame: p_key,
                index: l1.frames.at(p_key)->Meta_0.frames_seq().len() as usize,
            },
        )
        &&& (forall|k2: FrameKey| #[trigger] l1.frames.contains(k2) ==> l2.frames.contains(k2))
        &&& (forall|k2: FrameKey| #[trigger]
            l2.frames.contains(k2) ==> l1.frames.contains(k2) || fresh.contains(k2))
        &&& (forall|k2: FrameKey| #[trigger]
            l1.frames.contains(k2) && k2 != p_key ==> l2.frames.at(k2) == l1.frames.at(k2))
        &&& l2.frames.at(p_key) is Meta
        &&& l2.frames.at(p_key).wf()
        &&& l2.frames.at(p_key)->Meta_0.frames_seq() == l1.frames.at(
            p_key,
        )->Meta_0.frames_seq().push(fresh[fresh.len() - 1])
        &&& l2.frames.at(p_key).emb() == l1.frames.at(p_key).emb()
        &&& l2.frames.at(p_key).lvl() == l1.frames.at(p_key).lvl()
        &&& l2.frames.at(p_key).dists().total() == l1.frames.at(p_key).dists().total() + delta
            + l1.span_of(l_key)
        &&& (forall|j: int|
            0 <= j < l1.frames.at(p_key)->Meta_0.frames_seq().len() ==> l2.frames.at(
                p_key,
            ).dists().prefix(j) == l1.frames.at(p_key).dists().prefix(j))
        &&& l2.frames.at(p_key).dists().prefix(
            l1.frames.at(p_key)->Meta_0.frames_seq().len() as int,
        ) == l1.frames.at(p_key).dists().total() + delta + l1.span_of(l_key)
        &&& l2.frames.at(p_key).dists().gap(l1.frames.at(p_key)->Meta_0.frames_seq().len() - 1)
            == delta + l1.span_of(l_key)
        &&& (forall|j: int|
            0 <= j < l1.frames.at(p_key)->Meta_0.frames_seq().len() - 1 ==> l2.frames.at(
                p_key,
            ).dists().gap(j) == l1.frames.at(p_key).dists().gap(j))
    }

    /// Groundwork for the split proofs: the old last child is off the chain
    /// and keeps its span, the fresh chain spans nothing, and the split
    /// parent and the root grow by exactly `delta`.
    #[verifier::rlimit(100)]
    proof fn lemma_split_prelim(
        l2: Self,
        l1: Self,
        ch: Seq<FrameKey>,
        fresh: Seq<FrameKey>,
        p_key: FrameKey,
        l_key: FrameKey,
        nb_key: FrameKey,
        key: Index,
        delta: u64,
    )
        requires
            l1.wf(),
            l1.root is Some,
            delta > 0,
            Self::split_shape(l2, l1, ch, fresh, p_key, l_key, nb_key, key, delta),
        ensures
            !ch.contains(l_key),
            l2.span_of(l_key) == l1.span_of(l_key),
            forall|i: int| 0 <= i < fresh.len() ==> l2.span_of(#[trigger] fresh[i]) == 0,
            l2.span_of(p_key) == l1.span_of(p_key) + delta,
            l2.root_lvl() == l1.root_lvl(),
            l2.span_of(l2.root_key()) == l1.span_of(l1.root_key()) + delta,
            l2.lvl_of(p_key) == l1.lvl_of(p_key),
    {
        reveal(PointList::split_shape);
        let old_p = l1.frames.at(p_key)->Meta_0;
        let n0 = old_p.frames_seq().len() as int;
        let top = fresh[fresh.len() - 1];
        assert(l1.frame_ok(p_key));
        assert(l1.child_ok(p_key, n0 - 1));
        assert(ch.contains(p_key)) by {
            assert(ch[ch.len() - 1] == p_key);
        }
        assert(!ch.contains(l_key)) by {
            if ch.contains(l_key) {
                let i = choose|i: int| 0 <= i < ch.len() && ch[i] == l_key;
                if i == 0 {
                    assert(l1.frame_ok(ch[0]));
                    assert(l1.frames.at(l_key).emb() is InMetaFrame);
                } else {
                    l1.lemma_chain_step(ch, i);
                    assert(ch[i - 1] == p_key);
                    if i - 1 < ch.len() - 1 {
                        l1.lemma_chain_lvl(ch, i - 1, ch.len() - 1);
                    }
                }
            }
        }
        Self::lemma_span_off_chain(l1, l2, ch, l_key);
        assert forall|i: int| 0 <= i < fresh.len() implies l2.span_of(#[trigger] fresh[i])
            == 0 by {
            l2.lemma_fresh_span(fresh, i);
        }
        assert(l2.lvl_of(top) == fresh.len() - 1);
        assert(l2.span_of(p_key) == l2.frames.at(p_key).dists().total() + l2.span_of(top)) by {
            assert(l2.frames.at(p_key)->Meta_0.frames_seq().last() == top);
            assert(l1.child_ok(p_key, n0 - 1));
            assert(l2.lvl_of(top) < l2.lvl_of(p_key));
        }
        assert(l2.span_of(p_key) == l1.span_of(p_key) + delta) by {
            assert(l1.span_of(p_key) == old_p.distances.total() + l1.span_of(l_key));
        }
        assert(l2.root_lvl() == l1.root_lvl()) by {
            if l1.root_key() == p_key {
                assert(l2.frames.at(p_key).lvl() == l1.frames.at(p_key).lvl());
            }
        }
        assert forall|j: int| 0 <= j < ch.len() - 1 implies l2.frames.at(#[trigger] ch[j])
            == l1.frames.at(ch[j]) by {
            assert(l1.frames.contains(ch[j]));
            l1.lemma_chain_lvl(ch, j, ch.len() - 1);
            assert(ch[j] != p_key);
        }
        Self::lemma_chain_span_delta(l1, l2, ch, delta as int, 0);
    }

    /// One child link of a surviving meta frame still holds after a split
    /// append.
    #[verifier::rlimit(100)]
    #[verifier::spinoff_prover]
    proof fn lemma_split_child_ok(
        l2: Self,
        l1: Self,
        ch: Seq<FrameKey>,
        fresh: Seq<FrameKey>,
        p_key: FrameKey,
        l_key: FrameKey,
        nb_key: FrameKey,
        key: Index,
        delta: u64,
        k: FrameKey,
        j: int,
    )
        requires
            l1.wf(),
            l1.root is Some,
            delta > 0,
            Self::split_shape(l2, l1, ch, fresh, p_key, l_key, nb_key, key, delta),
            !ch.contains(l_key),
            l2.span_of(l_key) == l1.span_of(l_key),
            forall|i: int| 0 <= i < fresh.len() ==> l2.span_of(#[trigger] fresh[i]) == 0,
            l2.root_lvl() == l1.root_lvl(),
            l2.frames.contains(k),
            !fresh.contains(k),
            l2.frames.at(k) is Meta,
            0 <= j < l2.frames.at(k)->Meta_0.frames_seq().len(),
        ensures
            l2.child_ok(k, j),
    {
        reveal(PointList::split_shape);
        let old_p = l1.frames.at(p_key)->Meta_0;
        let n0 = old_p.frames_seq().len() as int;
        let top = fresh[fresh.len() - 1];
        assert(l1.frame_ok(p_key));
        assert(l1.child_ok(p_key, n0 - 1));
        assert(ch.contains(p_key)) by {
            assert(ch[ch.len() - 1] == p_key);
        }
        assert(l1.frames.contains(k));
        assert(l1.frame_ok(k));
        let newlen = l2.frames.at(k)->Meta_0.frames_seq().len() as int;
        if k == p_key {
            if j < n0 {
                assert(l1.child_ok(k, j));
                let c = old_p.frames_seq()[j];
                assert(l2.frames.at(p_key)->Meta_0.frames_seq()[j] == c);
                assert(l2.frames.at(c) == l1.frames.at(c)) by {
                    assert(c != p_key) by {
                        assert(l1.frames.at(c).lvl() == l1.frames.at(p_key).lvl() - 1);
                    }
                    assert(l1.frames.contains(c));
                }
                if j < n0 - 1 {
                    l1.lemma_nonlast_child_off_chain(ch, k, j);
                    Self::lemma_span_off_chain(l1, l2, ch, c);
                } else {
                    assert(c == l_key);
                    assert(l2.frames.at(p_key).dists().gap(n0 - 1) == delta + l1.span_of(l_key));
                }
            } else {
                assert(j == n0);
                assert(l2.frames.at(p_key)->Meta_0.frames_seq()[n0] == top);
                assert(l2.frames.at(top).lvl() == fresh.len() - 1) by {
                    assert(fresh.contains(top)) by {
                        assert(fresh[fresh.len() - 1] == top);
                    }
                }
            }
        } else {
            assert(l2.frames.at(k) == l1.frames.at(k));
            assert(l1.child_ok(k, j));
            let c = l1.frames.at(k)->Meta_0.frames_seq()[j];
            assert(l1.frames.contains(c));
            if c == p_key {
                assert(l1.frames.at(p_key).emb() == Embedding::InMetaFrame(
                    IndexInFrame { frame: k, index: j as usize },
                ));
                assert(j == newlen - 1) by {
                    if ch.len() >= 2 {
                        l1.lemma_chain_step(ch, ch.len() - 1);
                    } else {
                        assert(l1.frames.at(p_key).emb() == Embedding::InList);
                    }
                }
            } else {
                assert(l2.frames.at(c) == l1.frames.at(c));
                if j < newlen - 1 {
                    l1.lemma_nonlast_child_off_chain(ch, k, j);
                    Self::lemma_span_off_chain(l1, l2, ch, c);
                }
            }
        }
    }

    /// A frame of the fresh chain satisfies the frame invariant once the
    /// chain hangs under the split parent.
    #[verifier::rlimit(100)]
    #[verifier::spinoff_prover]
    proof fn lemma_split_frame_ok_fresh(
        l2: Self,
        l1: Self,
        ch: Seq<FrameKey>,
        fresh: Seq<FrameKey>,
        p_key: FrameKey,
        l_key: FrameKey,
        nb_key: FrameKey,
        key: Index,
        delta: u64,
        i: int,
    )
        requires
            delta > 0,
            Self::split_shape(l2, l1, ch, fresh, p_key, l_key, nb_key, key, delta),
            l1.frames.at(l_key).lvl() == l1.frames.at(p_key).lvl() - 1,
            l1.frames.at(p_key).lvl() <= l2.root_lvl(),
            0 <= i < fresh.len(),
        ensures
            l2.frame_ok(fresh[i]),
    {
        reveal(PointList::split_shape);
        let old_p = l1.frames.at(p_key)->Meta_0;
        let n0 = old_p.frames_seq().len() as int;
        let top = fresh[fresh.len() - 1];
        let k = fresh[i];
        assert(l2.frames.at(k).wf());
        if i < fresh.len() - 1 {
            assert(l2.frames.at(fresh[i]).emb() == Embedding::InMetaFrame(
                IndexInFrame { frame: fresh[i + 1], index: 0 },
            ));
            assert(l2.frames.at(fresh[i + 1])->Meta_0.frames_seq()[0] == fresh[i]);
        } else {
            assert(l2.frames.at(p_key)->Meta_0.frames_seq()[n0] == top);
            assert(l2.frames.at(p_key).lvl() == fresh.len());
        }
        if l2.frames.at(k) is Meta {
            assert forall|j: int|
                0 <= j < l2.frames.at(k)->Meta_0.frames_seq().len() implies #[trigger] l2.child_ok(
                k,
                j,
            ) by {
                assert(i >= 1);
                assert(j == 0);
                assert(l2.frames.at(k)->Meta_0.frames_seq() =~= seq![fresh[i - 1]]);
                assert(l2.frames.at(fresh[i - 1]).emb() == Embedding::InMetaFrame(
                    IndexInFrame { frame: k, index: 0 },
                ));
            }
        }
    }

    /// A surviving frame satisfies the frame invariant after a split
    /// append.
    #[verifier::rlimit(100)]
    proof fn lemma_split_frame_ok_old(
        l2: Self,
        l1: Self,
        ch: Seq<FrameKey>,
        fresh: Seq<FrameKey>,
        p_key: FrameKey,
        l_key: FrameKey,
        nb_key: FrameKey,
        key: Index,
        delta: u64,
        k: FrameKey,
    )
        requires
            l1.wf(),
            l1.root is Some,
            delta > 0,
            Self::split_shape(l2, l1, ch, fresh, p_key, l_key, nb_key, key, delta),
            !ch.contains(l_key),
            l2.span_of(l_key) == l1.span_of(l_key),
            forall|i: int| 0 <= i < fresh.len() ==> l2.span_of(#[trigger] fresh[i]) == 0,
            l2.root_lvl() == l1.root_lvl(),
            l2.frames.contains(k),
            !fresh.contains(k),
        ensures
            l2.frame_ok(k),
    {
        reveal(PointList::split_shape);
        let old_p = l1.frames.at(p_key)->Meta_0;
        let n0 = old_p.frames_seq().len() as int;
        let top = fresh[fresh.len() - 1];
        assert(fresh.contains(top)) by {
            assert(fresh[fresh.len() - 1] == top);
        }
        assert(l1.frame_ok(p_key));
        assert(l1.child_ok(p_key, n0 - 1));
        assert(l1.frames.contains(k));
        assert(l1.frame_ok(k));
        if k != p_key {
            assert(l2.frames.at(k) == l1.frames.at(k));
        }
        match l1.frames.at(k).emb() {
            Embedding::InList => {},
            Embedding::InMetaFrame(iif) => {
                assert(l1.frame_ok(iif.frame));
                if iif.frame == p_key {
                    assert(iif.index < n0);
                    assert(l2.frames.at(p_key)->Meta_0.frames_seq()[iif.index as int]
                        == old_p.frames_seq()[iif.index as int]);
                }
            },
        }
        if l2.frames.at(k) is Meta {
            assert forall|j: int|
                0 <= j < l2.frames.at(k)->Meta_0.frames_seq().len() implies #[trigger] l2.child_ok(
                k,
                j,
            ) by {
                Self::lemma_split_child_ok(
                    l2,
                    l1,
                    ch,
                    fresh,
                    p_key,
                    l_key,
                    nb_key,
                    key,
                    delta,
                    k,
                    j,
                );
            }
        }
    }

    /// One frame of the list after a split append still satisfies the
    /// frame invariant.
    proof fn lemma_split_frame_ok(
        l2: Self,
        l1: Self,
        ch: Seq<FrameKey>,
        fresh: Seq<FrameKey>,
        p_key: FrameKey,
        l_key: FrameKey,
        nb_key: FrameKey,
        key: Index,
        delta: u64,
        k: FrameKey,
    )
        requires
            l1.wf(),
            l1.root is Some,
            delta > 0,
            Self::split_shape(l2, l1, ch, fresh, p_key, l_key, nb_key, key, delta),
            !ch.contains(l_key),
            l2.span_of(l_key) == l1.span_of(l_key),
            forall|i: int| 0 <= i < fresh.len() ==> l2.span_of(#[trigger] fresh[i]) == 0,
            l2.root_lvl() == l1.root_lvl(),
            l2.frames.contains(k),
        ensures
            l2.frame_ok(k),
    {
        reveal(PointList::split_shape);
        if fresh.contains(k) {
            let i = choose|i: int| 0 <= i < fresh.len() && fresh[i] == k;
            assert(l1.frame_ok(p_key));
            assert(l1.child_ok(p_key, l1.frames.at(p_key)->Meta_0.frames_seq().len() - 1));
            Self::lemma_split_frame_ok_fresh(l2, l1, ch, fresh, p_key, l_key, nb_key, key, delta, i);
        } else {
            Self::lemma_split_frame_ok_old(l2, l1, ch, fresh, p_key, l_key, nb_key, key, delta, k);
        }
    }

    /// Split append: a fresh base frame took the handle, wrapped in fresh
    /// meta frames and attached as a new sibling of the full last child.
    /// Everything stays well-formed, every old element keeps its position,
    /// and the new handle sits at the new end.
    #[verifier::rlimit(100)]
    proof fn lemma_split_case(
        l2: Self,
        l0: Self,
        l1: Self,
        ch: Seq<FrameKey>,
        fresh: Seq<FrameKey>,
        p_key: FrameKey,
        l_key: FrameKey,
        nb_key: FrameKey,
        key: Index,
        delta: u64,
        elem_opt: Option<E>,
    )
        requires
            Self::grown_from(l1, l0),
            delta > 0,
            l0.end + delta <= u64::MAX,
            Self::split_shape(l2, l1, ch, fresh, p_key, l_key, nb_key, key, delta),
            key.index == l1.point_slots@.len(),
            l2.start == l1.start,
            l2.end == l1.end + delta,
            l2.len == l1.len + 1,
            elem_opt is Some,
            l2.point_slots@ == l1.point_slots@.push(
                Some(IndexInFrame { frame: nb_key, index: 0 }),
            ),
            l2.elements@ == l1.elements@.push(elem_opt),
            l2.frames.slots@.len() > l1.frames.slots@.len(),
        ensures
            l2.wf(),
            l2.valid(key),
            !l0.valid(key),
            l2.pos_of(key) == l2.end,
            forall|k2: Index|
                l0.valid(k2) ==> l2.valid(k2) && l2.pos_of(k2) == l0.pos_of(k2),
            forall|k2: Index| #[trigger] l2.valid(k2) ==> k2 == key || l0.valid(k2),
    {
        reveal(PointList::grown_from);
        reveal(PointList::split_shape);
        let old_p = l1.frames.at(p_key)->Meta_0;
        let n0 = old_p.frames_seq().len() as int;
        let top = fresh[fresh.len() - 1];
        assert(l1.frame_ok(p_key));
        assert(l1.child_ok(p_key, n0 - 1));
        assert(fresh.contains(top) && fresh.contains(nb_key)) by {
            assert(fresh[fresh.len() - 1] == top);
            assert(fresh[0] == nb_key);
        }
        Self::lemma_split_prelim(l2, l1, ch, fresh, p_key, l_key, nb_key, key, delta);
        assert forall|k: FrameKey| #[trigger] l2.frames.contains(k) implies l2.frame_ok(k) by {
            Self::lemma_split_frame_ok(l2, l1, ch, fresh, p_key, l_key, nb_key, key, delta, k);
        }
        // handle tables stay consistent
        assert(l2.points_wf()) by {
            assert forall|h: int|
                0 <= h < l2.point_slots@.len() && #[trigger] l2.point_slots@[h] is Some
                implies l2.handle_ok(h) by {
                if h < l1.point_slots@.len() {
                    assert(l1.point_slots@[h] is Some);
                    assert(l1.handle_ok(h));
                    let loc = l1.point_slots@[h]->Some_0;
                    assert(loc.frame != p_key);
                    assert(!fresh.contains(loc.frame));
                    assert(l2.frames.at(loc.frame) == l1.frames.at(loc.frame));
                } else {
                    assert(l2.point_slots@[h] == Some(IndexInFrame { frame: nb_key, index: 0 }));
                }
            }
        }
        assert(l2.keys_wf()) by {
            assert forall|k: FrameKey, j: int|
                l2.frames.contains(k) && l2.frames.at(k) is Base && 0 <= j < l2.frames.at(
                    k,
                ).slots_len() implies #[trigger] l2.key_ok(k, j) by {
                if k == nb_key {
                    assert(j == 0);
                    assert(l2.frames.at(k)->Base_0.keys_seq()[0] == key);
                    assert(l2.point_slots@[key.index as int] == Some(
                        IndexInFrame { frame: nb_key, index: 0 },
                    ));
                } else {
                    assert(!fresh.contains(k)) by {
                        if fresh.contains(k) {
                            let i = choose|i: int| 0 <= i < fresh.len() && fresh[i] == k;
                            assert(i >= 1);
                            assert(l2.frames.at(fresh[i]) is Meta);
                        }
                    }
                    assert(l1.frames.contains(k));
                    assert(l1.key_ok(k, j));
                    let key2 = l1.frames.at(k)->Base_0.keys_seq()[j];
                    assert(l2.point_slots@[key2.index as int] == l1.point_slots@[
                        key2.index as int]);
                }
            }
        }
        lemma_count_push(l1.point_slots@, Some(IndexInFrame { frame: nb_key, index: 0 }));
        // positions: old handles are untouched
        assert forall|k2: FrameKey| #[trigger]
            l1.frames.contains(k2) implies l2.frames.contains(k2) && l2.frames.at(k2).emb()
            == l1.frames.at(k2).emb() && l2.frames.at(k2).lvl() == l1.frames.at(k2).lvl() by {}
        assert forall|k2: FrameKey| #[trigger]
            l1.frames.contains(k2) implies match l1.frames.at(k2).emb() {
            Embedding::InMetaFrame(iif) => l2.frames.at(iif.frame).dists().prefix(iif.index as int)
                == l1.frames.at(iif.frame).dists().prefix(iif.index as int),
            Embedding::InList => true,
        } by {
            assert(l1.frame_ok(k2));
            match l1.frames.at(k2).emb() {
                Embedding::InMetaFrame(iif) => {
                    assert(l1.frame_ok(iif.frame));
                    if iif.frame == p_key {
                        assert(iif.index < n0);
                    }
                },
                Embedding::InList => {},
            }
        }
        assert forall|k2: Index| l0.valid(k2) implies l2.valid(k2) && l2.pos_of(k2) == l0.pos_of(
            k2,
        ) by {
            assert(l1.valid(k2));
            assert(l1.handle_ok(k2.index as int));
            let loc = l1.loc_of(k2);
            assert(l2.point_slots@[k2.index as int] == l1.point_slots@[k2.index as int]);
            Self::lemma_rel_same(l1, l2, loc.frame);
            assert(loc.frame != p_key);
            assert(!fresh.contains(loc.frame));
            assert(l2.frames.at(loc.frame) == l1.frames.at(loc.frame));
        }
        // the new handle sits at the new end
        assert(l2.valid(key));
        assert(l2.loc_of(key) == IndexInFrame { frame: nb_key, index: 0 });
        l2.lemma_fresh_offset(fresh, p_key, n0 as usize, 0);
        Self::lemma_rel_same(l1, l2, p_key);
        l1.lemma_chain_offset(ch, ch.len() - 1);
        assert(l2.frames.at(nb_key).dists().prefix(0) == 0);
        assert(l2.pos_of(key) == l2.start + l1.frame_offset(p_key) + old_p.distances.total()
            + delta + l1.span_of(l_key));
        assert(l1.frame_offset(p_key) + old_p.distances.total() + l1.span_of(l_key) == l1.span_of(
            l1.root_key(),
        )) by {
            assert(l1.span_of(p_key) == old_p.distances.total() + l1.span_of(l_key));
        }
        assert(l2.pos_of(key) == l2.end);
        assert forall|k2: Index| #[trigger] l2.valid(k2) implies k2 == key || l0.valid(k2) by {
            if k2.index < l1.point_slots@.len() {
                assert(l1.valid(k2));
            } else {
                assert(k2.index == key.index);
            }
        }
        assert(l2.wf());
    }


    /// Append an element at distance `distance_from_last` after the current
    /// last element — or, for the first element, at the absolute position
    /// `distance_from_last` — and return its stable handle.
    ///
    /// Every element already in the list keeps its handle and its absolute
    /// position; the new element becomes the last one, and its position is
    /// the new list end.
    #[verifier::rlimit(100)]
    pub fn add_element(&mut self, element: E, distance_from_last: u64) -> (key: Index)
        requires
            old(self).wf(),
            old(self).len > 0 ==> distance_from_last > 0,
            old(self).end + distance_from_last <= u64::MAX,
            old(self).point_slots@.len() < usize::MAX,
        ensures
            final(self).wf(),
            final(self).len == old(self).len + 1,
            key.index == old(self).point_slots@.len(),
            !old(self).valid(key),
            final(self).valid(key),
            final(self).elements@ == old(self).elements@.push(Some(element)),
            final(self).point_slots@.len() == old(self).point_slots@.len() + 1,
            forall|k2: Index|
                old(self).valid(k2) ==> final(self).valid(k2) && final(self).pos_of(k2) == old(
                    self,
                ).pos_of(k2),
            forall|k2: Index| #[trigger]
                final(self).valid(k2) ==> k2 == key || old(self).valid(k2),
            final(self).start == if old(self).len == 0 {
                distance_from_last
            } else {
                old(self).start
            },
            final(self).end == old(self).end + distance_from_last,
            final(self).pos_of(key) == final(self).end,
            final(self).root is Some,
            final(self).rightmost(final(self).root_key()) == key,
    {
        proof {
            lemma_count_le(self.point_slots@);
        }
        if self.root.is_some() {
            let ghost l0 = *self;
            self.ensure_key_can_be_added_to_root();
            let ghost l1 = *self;
            let (strategy, chg) = self.add_key_strategy();
            let ghost ch = chg@;
            proof {
                assert(Self::grown_from(l1, l0)) by {
                    reveal(PointList::grown_from);
                }
            }
            match strategy {
                AddKeyStrategy::KeyCanBeAddedToExistingBaseFrame { base_frame } => {
                    self.add_element_direct(
                        element,
                        distance_from_last,
                        base_frame,
                        Ghost(ch),
                        Ghost(l0),
                    )
                },
                AddKeyStrategy::NewBaseFrameNecessary { frame_with_full_last_frame, last_frame } => {
                    self.add_element_split(
                        element,
                        distance_from_last,
                        frame_with_full_last_frame,
                        last_frame,
                        Ghost(ch),
                        Ghost(l0),
                    )
                },
            }
        } else {
            let ghost l0 = *self;
            proof {
                lemma_count_zero(l0.point_slots@);
            }
            let (frame_key, point_key) = self.add_base_frame(element);
            self.root = Some(frame_key);
            self.start = distance_from_last;
            self.end = distance_from_last;
            self.len = 1;
            proof {
                let l2 = *self;
                lemma_count_push(
                    l0.point_slots@,
                    Some(IndexInFrame { frame: frame_key, index: 0 }),
                );
                assert forall|k: FrameKey| #[trigger] l2.frames.contains(k) implies l2.frame_ok(
                    k,
                ) by {
                    assert(k == frame_key);
                }
                assert(l2.span_of(frame_key) == 0);
                assert(l2.points_wf()) by {
                    assert forall|h: int|
                        0 <= h < l2.point_slots@.len() && #[trigger] l2.point_slots@[h] is Some
                        implies l2.handle_ok(h) by {
                        if h < l0.point_slots@.len() {
                            assert(l0.point_slots@[h] is None);
                        }
                    }
                }
                assert(l2.keys_wf()) by {
                    assert forall|k: FrameKey, j: int|
                        l2.frames.contains(k) && l2.frames.at(k) is Base && 0 <= j < l2.frames.at(
                            k,
                        ).slots_len() implies #[trigger] l2.key_ok(k, j) by {
                        assert(k == frame_key);
                        assert(j == 0);
                    }
                }
                assert(l2.valid(point_key));
                assert(l2.frame_offset(frame_key) == 0);
                assert(l2.frames.at(frame_key).dists().prefix(0) == 0);
                assert(l2.pos_of(point_key) == l2.end);
                assert(l2.rightmost(frame_key) == point_key);
                assert forall|k2: Index| #[trigger] l2.valid(k2) implies k2 == point_key by {
                    if k2.index < l0.point_slots@.len() {
                        assert(l0.point_slots@[k2.index as int] is None);
                    }
                }
                assert(l2.wf());
            }
            point_key
        }
    }
}


impl<E> PointList<E> {
    /// Along a descent chain the rightmost handle is the same at every
    /// frame: each step keeps to the last child.
    proof fn lemma_chain_rightmost(self, ch: Seq<FrameKey>, i: int)
        requires
            self.frames_wf(),
            self.root is Some,
            self.descent_chain(ch),
            0 <= i < ch.len(),
        ensures
            self.rightmost(ch[i]) == self.rightmost(ch.last()),
        decreases ch.len() - i,
    {
        if i < ch.len() - 1 {
            self.lemma_chain_rightmost(ch, i + 1);
            assert(self.frames.contains(ch[i]));
            assert(self.frame_ok(ch[i]));
            let m = self.frames.at(ch[i])->Meta_0;
            let n = m.frames_seq().len() as int;
            assert(self.child_ok(ch[i], n - 1));
        }
    }

    /// The rightmost handle below any frame of a fresh wrapping chain is
    /// the single handle of the base frame at its bottom.
    proof fn lemma_fresh_rightmost(self, fresh: Seq<FrameKey>, key: Index, i: int)
        requires
            self.fresh_chain(fresh),
            self.frames.at(fresh[0])->Base_0.keys_seq() =~= seq![key],
            0 <= i < fresh.len(),
        ensures
            self.rightmost(fresh[i]) == key,
        decreases i,
    {
        if i > 0 {
            self.lemma_fresh_rightmost(fresh, key, i - 1);
            assert(self.frames.at(fresh[i])->Meta_0.frames_seq().last() == fresh[i - 1]);
            assert(self.lvl_of(fresh[i - 1]) < self.lvl_of(fresh[i]));
        }
    }

    /// After a split append, the new handle is the rightmost element: the
    /// descent to the split point keeps to last children, and the fresh
    /// chain hangs as the new last sibling.
    #[verifier::rlimit(100)]
    proof fn lemma_rightmost_split(
        l2: Self,
        l1: Self,
        ch: Seq<FrameKey>,
        fresh: Seq<FrameKey>,
        p_key: FrameKey,
        l_key: FrameKey,
        nb_key: FrameKey,
        key: Index,
        delta: u64,
    )
        requires
            l2.wf(),
            l1.frames_wf(),
            l1.root is Some,
            l2.root == l1.root,
            l1.descent_chain(ch),
            ch.last() == p_key,
            Self::split_shape(l2, l1, ch, fresh, p_key, l_key, nb_key, key, delta),
        ensures
            l2.rightmost(l2.root_key()) == key,
    {
        reveal(PointList::split_shape);
        let top = fresh[fresh.len() - 1];
        assert(l1.frame_ok(p_key));
        assert(l1.child_ok(p_key, l1.frames.at(p_key)->Meta_0.frames_seq().len() - 1));
        assert(l2.descent_chain(ch)) by {
            assert forall|j: int| 0 <= j < ch.len() - 1 implies l2.frames.at(#[trigger] ch[j])
                is Meta && ch[j + 1] == l2.frames.at(ch[j])->Meta_0.frames_seq().last() by {
                assert(l1.frames.contains(ch[j]));
                l1.lemma_chain_lvl(ch, j, ch.len() - 1);
                assert(ch[j] != p_key);
            }
            assert forall|j: int| 0 <= j < ch.len() implies l2.frames.contains(
                #[trigger] ch[j],
            ) by {
                assert(l1.frames.contains(ch[j]));
            }
        }
        l2.lemma_chain_rightmost(ch, 0);
        assert(l2.frames.at(p_key)->Meta_0.frames_seq().last() == top);
        assert(l2.lvl_of(top) < l2.lvl_of(p_key)) by {
            assert(l2.frames.contains(p_key));
            assert(l2.frame_ok(p_key));
            assert(l2.child_ok(p_key, l2.frames.at(p_key)->Meta_0.frames_seq().len() - 1));
        }
        assert(l2.rightmost(p_key) == l2.rightmost(top));
        l2.lemma_fresh_rightmost(fresh, key, fresh.len() - 1);
    }
}

/// A handle table never counts more live handles than it has entries.
pub proof fn lemma_count_le(s: Seq<Option<IndexInFrame>>)
    ensures
        count_valid(s) <= s.len(),
    decreases s.len(),
{
    if s.len() > 0 {
        lemma_count_le(s.drop_last());
    }
}

/// A handle table with no live entry counts zero.
pub proof fn lemma_count_nonneg(s: Seq<Option<IndexInFrame>>)
    ensures
        count_valid(s) >= 0,
    decreases s.len(),
{
    if s.len() > 0 {
        lemma_count_nonneg(s.drop_last());
    }
}

/// A handle table that counts zero has no live entry.
pub proof fn lemma_count_zero(s: Seq<Option<IndexInFrame>>)
    requires
        count_valid(s) == 0,
    ensures
        forall|i: int| 0 <= i < s.len() ==> s[i] is None,
    decreases s.len(),
{
    if s.len() > 0 {
        lemma_count_nonneg(s.drop_last());
        lemma_count_zero(s.drop_last());
        assert forall|i: int| 0 <= i < s.len() implies s[i] is None by {
            if i < s.len() - 1 {
                assert(s.drop_last()[i] == s[i]);
            }
        }
    }
}

/// Appending an entry to a handle table adds one live handle.
pub proof fn lemma_count_push(s: Seq<Option<IndexInFrame>>, v: Option<IndexInFrame>)
    ensures
        count_valid(s.push(v)) == count_valid(s) + if v is Some {
            1int
        } else {
            0int
        },
{
    assert(s.push(v).drop_last() =~= s);
    assert(s.push(v).last() == v);
}

} // verus!
