use vstd::prelude::*;

verus! {

use crate::DISTANCES_CAPACITY;

broadcast use vstd::array::group_array_axioms;

/// Fenwick-style array of non-negative scalar offsets.
///
/// The array encodes `DISTANCES_CAPACITY` gap values `g0 .. g3`.  Stored
/// entry `i` holds the sum of the gaps `f(i) ..= i` where `f(i) = i & (i + 1)`
/// strips the trailing one-bits of `i`: entry 0 holds `g0`, entry 1 holds
/// `g0 + g1`, entry 2 holds `g2`, and entry 3 holds the sum of all gaps.
/// This layout supports point update, prefix sum and total in logarithmic
/// time in the capacity.
#[derive(Clone, Copy, Debug, PartialEq, Eq)]
pub struct Distances {
    pub distances: [u64; DISTANCES_CAPACITY],
}

impl Distances {
    /// Gap `i`: the distance between slot `i` and slot `i + 1`, recovered
    /// from the Fenwick layout.  Stated over `int` so it is total even on
    /// arrays that do not satisfy `wf`.
    pub open spec fn gap(self, i: int) -> int {
        let d = self.distances@;
        if i == 0 {
            d[0] as int
        } else if i == 1 {
            d[1] - d[0]
        } else if i == 2 {
            d[2] as int
        } else {
            d[3] - d[1] - d[2]
        }
    }

    /// The flat sequence of gaps that the array encodes.
    pub open spec fn gaps(self) -> Seq<int> {
        Seq::new(DISTANCES_CAPACITY as nat, |i: int| self.gap(i))
    }

    /// Sum of the gaps before slot `i`, i.e. the position of slot `i`
    /// relative to slot 0.
    pub open spec fn prefix(self, i: int) -> int {
        if i <= 0 {
            0
        } else if i == 1 {
            self.gap(0)
        } else if i == 2 {
            self.gap(0) + self.gap(1)
        } else if i == 3 {
            self.gap(0) + self.gap(1) + self.gap(2)
        } else {
            self.gap(0) + self.gap(1) + self.gap(2) + self.gap(3)
        }
    }

    /// Sum of all gaps; always equal to the last stored entry.
    pub open spec fn total(self) -> int {
        self.prefix(DISTANCES_CAPACITY as int)
    }

    /// A well-formed array encodes only non-negative gaps.
    pub open spec fn wf(self) -> bool {
        self.gap(0) >= 0 && self.gap(1) >= 0 && self.gap(2) >= 0 && self.gap(3) >= 0
    }

    pub fn new() -> (r: Self)
        ensures
            r.wf(),
            forall|i: int| 0 <= i < DISTANCES_CAPACITY ==> r.gap(i) == 0,
            r.total() == 0,
    {
        Distances { distances: [0u64; DISTANCES_CAPACITY] }
    }

    /// Add `change` to gap `index`, touching the logarithmically many
    /// stored entries whose span covers that gap.
    pub fn increase_distance(&mut self, index: usize, change: u64)
        requires
            old(self).wf(),
            index < DISTANCES_CAPACITY,
            old(self).total() + change <= u64::MAX,
        ensures
            final(self).wf(),
            final(self).gap(index as int) == old(self).gap(index as int) + change,
            forall|i: int|
                0 <= i < DISTANCES_CAPACITY && i != index ==> final(self).gap(i) == old(
                    self,
                ).gap(i),
            final(self).total() == old(self).total() + change,
    {
        match index {
            0 => {
                self.distances[0] = self.distances[0] + change;
                self.distances[1] = self.distances[1] + change;
                self.distances[3] = self.distances[3] + change;
            },
            1 => {
                self.distances[1] = self.distances[1] + change;
                self.distances[3] = self.distances[3] + change;
            },
            2 => {
                self.distances[2] = self.distances[2] + change;
                self.distances[3] = self.distances[3] + change;
            },
            _ => {
                self.distances[3] = self.distances[3] + change;
            },
        }
    }

    /// The distance between slot `index` and slot `index + 1`.
    pub fn distance(&self, index: usize) -> (r: u64)
        requires
            self.wf(),
            index < DISTANCES_CAPACITY,
        ensures
            r == self.gap(index as int),
    {
        match index {
            0 => self.distances[0],
            1 => self.distances[1] - self.distances[0],
            2 => self.distances[2],
            _ => self.distances[3] - self.distances[1] - self.distances[2],
        }
    }

    /// The sum of the gaps before slot `index`.
    pub fn position(&self, index: usize) -> (r: u64)
        requires
            self.wf(),
            index <= DISTANCES_CAPACITY,
        ensures
            r == self.prefix(index as int),
    {
        match index {
            0 => 0,
            1 => self.distances[0],
            2 => self.distances[1],
            3 => self.distances[1] + self.distances[2],
            _ => self.distances[3],
        }
    }

    /// The sum of all gaps.
    pub fn length(&self) -> (r: u64)
        ensures
            r == self.total(),
    {
        self.distances[DISTANCES_CAPACITY - 1]
    }

    /// The flat gap array, decoded from the Fenwick layout.
    pub fn simple(&self) -> (r: [u64; DISTANCES_CAPACITY])
        requires
            self.wf(),
        ensures
            forall|i: int| 0 <= i < DISTANCES_CAPACITY ==> r@[i] == self.gap(i),
    {
        let mut simple = self.distances;
        simple[3] = simple[3] - simple[1];
        simple[1] = simple[1] - simple[0];
        simple[3] = simple[3] - simple[2];
        simple
    }

    /// Encode a flat gap array into the Fenwick layout.
    pub fn from_simple(simple: [u64; DISTANCES_CAPACITY]) -> (r: Self)
        requires
            simple@[0] + simple@[1] + simple@[2] + simple@[3] <= u64::MAX,
        ensures
            r.wf(),
            forall|i: int| 0 <= i < DISTANCES_CAPACITY ==> r.gap(i) == simple@[i],
            r.total() == simple@[0] + simple@[1] + simple@[2] + simple@[3],
    {
        let mut distances = simple;
        distances[1] = distances[1] + distances[0];
        distances[3] = distances[3] + distances[2];
        distances[3] = distances[3] + distances[1];
        Distances { distances }
    }
}

/// The gap sequence that results from replacing the gaps in
/// `start .. end` with `replace_with` zero gaps.  The sequence keeps its
/// length: gaps pushed past the end are dropped, and freed slots at the end
/// become zero gaps.
pub open spec fn spliced_gaps(g: Seq<int>, start: int, end: int, replace_with: int) -> Seq<int> {
    let edited = g.subrange(0, start) + Seq::new(replace_with as nat, |i: int| 0int) + g.subrange(
        end,
        g.len() as int,
    );
    if edited.len() >= DISTANCES_CAPACITY {
        edited.subrange(0, DISTANCES_CAPACITY as int)
    } else {
        edited + Seq::new((DISTANCES_CAPACITY - edited.len()) as nat, |i: int| 0int)
    }
}

/// Sum of the first `i` entries of a stored array, for overflow reasoning.
pub open spec fn sum_upto(s: Seq<u64>, i: int) -> int
    decreases i,
{
    if i <= 0 {
        0
    } else {
        sum_upto(s, i - 1) + s[i - 1]
    }
}

proof fn lemma_sum_upto_agree(s1: Seq<u64>, s2: Seq<u64>, i: int)
    requires
        0 <= i <= s1.len(),
        i <= s2.len(),
        forall|m: int| 0 <= m < i ==> s1[m] == s2[m],
    ensures
        sum_upto(s1, i) == sum_upto(s2, i),
    decreases i,
{
    if i > 0 {
        lemma_sum_upto_agree(s1, s2, i - 1);
    }
}

proof fn lemma_sum_upto_zero_ext(s: Seq<u64>, a: int, b: int)
    requires
        0 <= a <= b <= s.len(),
        forall|m: int| a <= m < b ==> s[m] == 0,
    ensures
        sum_upto(s, b) == sum_upto(s, a),
    decreases b - a,
{
    if b > a {
        lemma_sum_upto_zero_ext(s, a, b - 1);
    }
}

proof fn lemma_sum_upto_mono(s: Seq<u64>, a: int, b: int)
    requires
        0 <= a <= b <= s.len(),
    ensures
        sum_upto(s, a) <= sum_upto(s, b),
    decreases b - a,
{
    if b > a {
        lemma_sum_upto_mono(s, a, b - 1);
    }
}

/// Entry `m` of a spliced gap sequence, written out directly: the prefix is
/// kept, then come the inserted zeros, then the shifted tail, then the zero
/// padding.
pub proof fn lemma_spliced_index(g: Seq<int>, start: int, end: int, n: int, m: int)
    requires
        g.len() == DISTANCES_CAPACITY,
        0 <= start <= end <= DISTANCES_CAPACITY,
        0 <= n,
        start + n <= DISTANCES_CAPACITY,
        0 <= m < DISTANCES_CAPACITY,
    ensures
        spliced_gaps(g, start, end, n).len() == DISTANCES_CAPACITY,
        spliced_gaps(g, start, end, n)[m] == (if m < start {
            g[m]
        } else if m < start + n {
            0
        } else if m - start - n + end < DISTANCES_CAPACITY {
            g[m - start - n + end]
        } else {
            0
        }),
{
}

impl Distances {
    /// Replace the gaps in `start .. end` with `replace_with` zero gaps.
    pub fn splice(&mut self, start: usize, end: usize, replace_with: usize)
        requires
            old(self).wf(),
            start <= end <= DISTANCES_CAPACITY,
            start + replace_with <= DISTANCES_CAPACITY,
        ensures
            final(self).wf(),
            final(self).gaps() == spliced_gaps(
                old(self).gaps(),
                start as int,
                end as int,
                replace_with as int,
            ),
    {
        let ghost target = spliced_gaps(
            old(self).gaps(),
            start as int,
            end as int,
            replace_with as int,
        );
        let flat = self.simple();
        let mut out = [0u64; DISTANCES_CAPACITY];
        let mut j: usize = 0;
        while j < start
            invariant
                j <= start <= DISTANCES_CAPACITY,
                out@.len() == DISTANCES_CAPACITY,
                flat@.len() == DISTANCES_CAPACITY,
                forall|m: int| 0 <= m < j ==> out@[m] == flat@[m],
                forall|m: int| j <= m < DISTANCES_CAPACITY ==> out@[m] == 0,
                sum_upto(out@, j as int) == sum_upto(flat@, j as int),
            decreases start - j,
        {
            let ghost prev = out@;
            out[j] = flat[j];
            proof {
                lemma_sum_upto_agree(out@, prev, j as int);
            }
            j += 1;
        }
        let mut k: usize = end;
        let mut dst: usize = start + replace_with;
        proof {
            lemma_sum_upto_zero_ext(out@, start as int, dst as int);
            lemma_sum_upto_mono(flat@, start as int, end as int);
        }
        while k < DISTANCES_CAPACITY && dst < DISTANCES_CAPACITY
            invariant
                start <= end <= DISTANCES_CAPACITY,
                start + replace_with <= dst,
                end <= k <= DISTANCES_CAPACITY,
                dst - k == start + replace_with - end,
                dst <= DISTANCES_CAPACITY,
                out@.len() == DISTANCES_CAPACITY,
                flat@.len() == DISTANCES_CAPACITY,
                forall|m: int| 0 <= m < start ==> out@[m] == flat@[m],
                forall|m: int|
                    start + replace_with <= m < dst ==> out@[m] == flat@[m - start - replace_with
                        + end],
                forall|m: int| start <= m < start + replace_with ==> out@[m] == 0,
                forall|m: int| dst <= m < DISTANCES_CAPACITY ==> out@[m] == 0,
                sum_upto(out@, dst as int) <= sum_upto(flat@, k as int),
            decreases DISTANCES_CAPACITY - k,
        {
            let ghost prev = out@;
            out[dst] = flat[k];
            proof {
                lemma_sum_upto_agree(out@, prev, dst as int);
            }
            k += 1;
            dst += 1;
        }
        proof {
            lemma_sum_upto_zero_ext(out@, dst as int, DISTANCES_CAPACITY as int);
            lemma_sum_upto_mono(flat@, k as int, DISTANCES_CAPACITY as int);
            assert(sum_upto(out@, 4) == out@[0] + out@[1] + out@[2] + out@[3]) by {
                assert(sum_upto(out@, 4) == sum_upto(out@, 3) + out@[3]);
                assert(sum_upto(out@, 3) == sum_upto(out@, 2) + out@[2]);
                assert(sum_upto(out@, 2) == sum_upto(out@, 1) + out@[1]);
                assert(sum_upto(out@, 1) == sum_upto(out@, 0) + out@[0]);
            }
            assert(sum_upto(flat@, 4) == flat@[0] + flat@[1] + flat@[2] + flat@[3]) by {
                assert(sum_upto(flat@, 4) == sum_upto(flat@, 3) + flat@[3]);
                assert(sum_upto(flat@, 3) == sum_upto(flat@, 2) + flat@[2]);
                assert(sum_upto(flat@, 2) == sum_upto(flat@, 1) + flat@[1]);
                assert(sum_upto(flat@, 1) == sum_upto(flat@, 0) + flat@[0]);
            }
        }
        let replaced = Self::from_simple(out);
        proof {
            assert forall|m: int| 0 <= m < DISTANCES_CAPACITY implies out@[m] == target[m] by {
                lemma_spliced_index(
                    old(self).gaps(),
                    start as int,
                    end as int,
                    replace_with as int,
                    m,
                );
                assert(old(self).gaps()[m] == old(self).gap(m));
                let src = m - start - replace_with + end;
                if start + replace_with <= m < dst {
                    assert(out@[m] == flat@[src]);
                    assert(0 <= src < DISTANCES_CAPACITY);
                    assert(old(self).gaps()[src] == old(self).gap(src));
                } else if dst <= m {
                    assert(out@[m] == 0);
                    assert(src >= k);
                }
            }
            assert(target.len() == DISTANCES_CAPACITY) by {
                lemma_spliced_index(
                    old(self).gaps(),
                    start as int,
                    end as int,
                    replace_with as int,
                    0,
                );
            }
            assert(replaced.gaps() =~= target);
        }
        *self = replaced;
    }

    /// Drop gap `index`: the gaps after it shift one slot to the left and
    /// the freed last slot becomes a zero gap.
    pub fn remove(&mut self, index: usize)
        requires
            old(self).wf(),
            index < DISTANCES_CAPACITY,
        ensures
            final(self).wf(),
            final(self).gaps() == spliced_gaps(old(self).gaps(), index as int, index + 1, 0),
            forall|i: int| 0 <= i < index ==> final(self).gap(i) == old(self).gap(i),
            forall|i: int|
                index <= i < DISTANCES_CAPACITY - 1 ==> final(self).gap(i) == old(self).gap(i + 1),
            final(self).gap(DISTANCES_CAPACITY - 1) == 0,
    {
        self.splice(index, index + 1, 0);
        proof {
            assert forall|i: int| 0 <= i < index implies self.gap(i) == old(self).gap(i) by {
                lemma_spliced_index(old(self).gaps(), index as int, index as int + 1, 0, i);
                assert(self.gaps()[i] == self.gap(i));
                assert(old(self).gaps()[i] == old(self).gap(i));
            }
            assert forall|i: int| index <= i < DISTANCES_CAPACITY - 1 implies self.gap(i) == old(
                self,
            ).gap(i + 1) by {
                lemma_spliced_index(old(self).gaps(), index as int, index as int + 1, 0, i);
                assert(self.gaps()[i] == self.gap(i));
                assert(old(self).gaps()[i + 1] == old(self).gap(i + 1));
            }
            assert(self.gap(DISTANCES_CAPACITY - 1) == 0) by {
                lemma_spliced_index(
                    old(self).gaps(),
                    index as int,
                    index as int + 1,
                    0,
                    DISTANCES_CAPACITY - 1,
                );
                assert(self.gaps()[DISTANCES_CAPACITY - 1] == self.gap(DISTANCES_CAPACITY - 1));
            }
        }
    }
}

/// Splicing `n` zero gaps in at `a` and then splicing those `n` gaps back
/// out returns the original gap sequence, provided the last `n` gaps were
/// zero (the first splice drops them past the end of the fixed-size array).
pub proof fn lemma_splice_round_trip(g: Seq<int>, a: int, n: int)
    requires
        g.len() == DISTANCES_CAPACITY,
        0 <= a,
        0 <= n,
        a + n <= DISTANCES_CAPACITY,
        forall|j: int| DISTANCES_CAPACITY - n <= j < DISTANCES_CAPACITY ==> g[j] == 0,
    ensures
        spliced_gaps(spliced_gaps(g, a, a, n), a, a + n, 0) =~= g,
{
    let first = spliced_gaps(g, a, a, n);
    let second = spliced_gaps(first, a, a + n, 0);
    assert forall|m: int| 0 <= m < DISTANCES_CAPACITY implies second[m] == g[m] by {
        assert(first.len() == DISTANCES_CAPACITY);
        assert(second.len() == DISTANCES_CAPACITY);
    }
}

/// Two arrays that encode the same gaps are the same array: the Fenwick
/// layout is a bijection between gap sequences and stored entries.  Together
/// with the contracts of `simple` and `from_simple` this gives the round
/// trip `from_simple(simple(d)) == d`.
pub proof fn lemma_gaps_determine_distances(a: Distances, b: Distances)
    requires
        forall|i: int| 0 <= i < DISTANCES_CAPACITY ==> a.gap(i) == b.gap(i),
    ensures
        a == b,
{
    assert(a.gap(0) == b.gap(0));
    assert(a.gap(1) == b.gap(1));
    assert(a.gap(2) == b.gap(2));
    assert(a.gap(3) == b.gap(3));
    assert(a.distances =~= b.distances);
}

} // verus!
