//! The order of merge steps for a bottom-up ("divide and conquer") merge over
//! `size` items.
//!
//! A merge step, in the manner of merge sort, combines two contiguous blocks:
//! the lower block is `[lower, middle)` and the upper is `[middle, upper)`.
//! Blocks start as single items.  The steps follow a binary counter: the
//! newest block is merged with the block before it whenever the two have the
//! same (power of two) size; otherwise the next two unmerged items are merged;
//! the last single item and the tail of the items are absorbed at the end.
//! Equivalently, the steps are the nodes of an aligned binary tree over the
//! items, visited children first.

use vstd::prelude::*;
use vstd::arithmetic::power2::pow2;
use vstd::arithmetic::power2::lemma_pow2_unfold;
use crate::dominance::binary::power_of_two;
use crate::dominance::binary::lowbit;
use crate::dominance::binary::lemma_div_mod_of;
use crate::dominance::binary::lemma_pow2_is_power_of_two;
use crate::dominance::binary::lemma_pow2_exponent_bound;
use crate::dominance::binary::lemma_power_of_two_pos;
use crate::dominance::binary::lemma_power_of_two_double;
use crate::dominance::binary::lemma_lowbit;
use crate::dominance::binary::lemma_lowbit_unique;
use crate::dominance::binary::lemma_lowbit_at_least;
use crate::dominance::binary::lemma_multiple_mod_double;
use crate::dominance::binary::lemma_multiple_of_factor;
use crate::dominance::binary::lemma_multiple_at_least;

verus! {

/// One merge step: the blocks `[lower, middle)` and `[middle, upper)` are
/// combined.  `shifted_level` is the base-two logarithm of the size of the
/// lower block, the depth of the step in the implied recursion.
/// `singles_to_add` is 0, 1 or 2: how many of the two blocks are single items
/// that no earlier step touched.  If there is only one, it is the upper block.
#[derive(Debug, Clone, Copy, PartialEq, Eq)]
pub struct MergeStep {
    pub lower: usize,
    pub middle: usize,
    pub upper: usize,
    pub shifted_level: u32,
    pub singles_to_add: u32,
}

/// The number of single items among the two blocks of a step.
pub open spec fn singles_for(lower: int, middle: int, upper: int) -> u32 {
    if middle - lower == 1 {
        2
    } else if upper - middle == 1 {
        1
    } else {
        0
    }
}

/// The block, as `(start, end)`, that holds item `x` among the items below
/// `frontier`, when those items form completed blocks whose sizes are the set
/// bits of `frontier`, largest first.
pub open spec fn completed_block(frontier: nat, x: nat) -> (int, int)
    decreases frontier,
{
    if frontier == 0 {
        (x as int, x as int + 1)
    } else {
        proof {
            lemma_lowbit(frontier);
        }
        let start = (frontier - lowbit(frontier)) as nat;
        if x >= start {
            (start as int, frontier as int)
        } else {
            completed_block(start, x)
        }
    }
}

/// The number of completed blocks below `frontier`: its set bits.
pub open spec fn completed_count(frontier: nat) -> nat
    decreases frontier,
{
    if frontier == 0 {
        0
    } else {
        proof {
            lemma_lowbit(frontier);
        }
        1 + completed_count((frontier - lowbit(frontier)) as nat)
    }
}

/// Block sizes after a merge step, as a merge schedule is checked: the merged
/// block's size at its start, and 0 where the upper block started.
pub open spec fn merged_sizes(sizes: Seq<int>, s: MergeStep) -> Seq<int> {
    sizes.update(s.lower as int, s.upper - s.lower).update(s.middle as int, 0)
}

/// Block sizes after the merge steps `steps`, taken in order.
pub open spec fn sizes_after(sizes: Seq<int>, steps: Seq<MergeStep>) -> Seq<int>
    decreases steps.len(),
{
    if steps.len() == 0 {
        sizes
    } else {
        merged_sizes(sizes_after(sizes, steps.drop_last()), steps.last())
    }
}

/// The step `s` merges two adjacent blocks of the partition whose sizes are
/// `sizes` (each block's size at its start, 0 elsewhere).
pub open spec fn merges_adjacent(sizes: Seq<int>, s: MergeStep) -> bool {
    &&& s.lower < s.middle < s.upper <= sizes.len()
    &&& sizes[s.lower as int] == s.middle - s.lower
    &&& sizes[s.middle as int] == s.upper - s.middle
    &&& forall|k: int| s.lower < k < s.upper && k != s.middle ==> #[trigger] sizes[k] == 0
}

/// The shape of a merge step over `n` items: the lower block has `2^level`
/// items; `singles_to_add` is at most 2, and 2 only for a step that merges two
/// single items; a step over all the items has `2^level < n <= 2^(level + 1)`.
pub open spec fn step_shape(s: MergeStep, n: nat) -> bool {
    &&& pow2(s.shifted_level as nat) == s.middle - s.lower
    &&& s.singles_to_add <= 2
    &&& s.singles_to_add == 2 ==> s.middle == s.lower + 1 && s.upper == s.middle + 1
    &&& (s.lower == 0 && s.upper == n) ==> pow2(s.shifted_level as nat) < n <= 2 * pow2(
        s.shifted_level as nat,
    )
}

/// The sizes of a single block of all `n` items.
pub open spec fn one_block(n: nat) -> Seq<int> {
    Seq::new(n, |k: int| if k == 0 { n as int } else { 0 })
}

/// The highest upper end among `steps`, or `start` where that is higher.
pub open spec fn highest_upper(start: nat, steps: Seq<MergeStep>) -> nat
    decreases steps.len(),
{
    if steps.len() == 0 {
        start
    } else {
        let h = highest_upper(start, steps.drop_last());
        if steps.last().upper > h {
            steps.last().upper as nat
        } else {
            h
        }
    }
}

/// Iterator over the merge steps of a bottom-up merge of `size` items.
///
/// The state is the frontier block `[lower, high_sort_mark)` produced by the
/// latest step; the items below `lower` form completed blocks given by the set
/// bits of `lower`, and the items from `high_sort_mark` on are still single.
/// `shifted` is the size of the lower block of the latest step and
/// `shifted_level` its logarithm.
pub struct MinusPlusShift {
    size: usize,
    shifted: usize,
    lower: usize,
    shifted_level: u32,
    high_sort_mark: usize,
}

impl View for MinusPlusShift {
    /// `(size, lower, high_sort_mark)`: the number of items, and the frontier
    /// block `[lower, high_sort_mark)` of the latest step (empty before the
    /// first step).  The frontier's end is the highest upper end of the steps
    /// so far.
    type V = (nat, nat, nat);

    closed spec fn view(&self) -> (nat, nat, nat) {
        (self.size as nat, self.lower as nat, self.high_sort_mark as nat)
    }
}

impl MinusPlusShift {
    /// The iterator's state is consistent.
    pub closed spec fn wf(&self) -> bool {
        &&& 2 <= self.size < usize::MAX
        &&& pow2(self.shifted_level as nat) == self.shifted
        &&& self.shifted_level < 64
        &&& if self.high_sort_mark == 0 {
            self.lower == 0
        } else {
            &&& self.lower < self.high_sort_mark <= self.size
            &&& self.high_sort_mark - self.lower >= 2
            &&& self.lower % 2 == 0
            &&& self.lower % self.shifted == 0
            &&& self.high_sort_mark < self.size ==> {
                &&& self.high_sort_mark - self.lower == 2 * self.shifted
                &&& self.lower as int % (2 * self.shifted) == 0
            }
            &&& (self.high_sort_mark == self.size && self.lower > 0) ==> self.high_sort_mark
                - self.lower <= lowbit(self.lower as nat)
        }
    }

    /// The number of items merged.
    pub open spec fn spec_size(&self) -> nat {
        self@.0
    }

    /// The current block, as `(start, end)`, of item `x`: the completed
    /// blocks below the frontier, the frontier block, and single items above.
    pub open spec fn block_of(&self, x: int) -> (int, int) {
        let lo = self@.1;
        let up = self@.2;
        if 0 <= x < lo {
            completed_block(lo, x as nat)
        } else if x < up {
            (lo as int, up as int)
        } else {
            (x, x + 1)
        }
    }

    /// The current block sizes: at the start of each block its size, 0 at the
    /// other items.
    pub open spec fn block_sizes(&self) -> Seq<int> {
        Seq::new(self@.0, |k: int| if self.block_of(k).0 == k { self.block_of(k).1 - k } else { 0 })
    }

    /// The number of merge steps still to come: one less than the number of
    /// current blocks.
    pub open spec fn remaining(&self) -> nat {
        if self@.2 == 0 {
            (self@.0 - 1) as nat
        } else {
            completed_count(self@.1) + (self@.0 - self@.2) as nat
        }
    }

    /// The blocks merged by the next step, as `(lower, middle, upper)`:
    /// the first two items at the start; when the newest block reaches the
    /// end, that block and the block before it; when the block before the
    /// newest has the newest block's size, those two; when two or more items
    /// are still single, the next two; otherwise the newest block and the one
    /// remaining single item.
    pub open spec fn upcoming(&self) -> (int, int, int) {
        let n = self@.0 as int;
        let lo = self@.1 as int;
        let up = self@.2 as int;
        if up == 0 {
            (0, 1, 2)
        } else if up == n {
            (lo - lowbit(lo as nat), lo, n)
        } else if lo > 0 && lowbit(lo as nat) == up - lo {
            (lo - (up - lo), lo, up)
        } else if up + 1 < n {
            (up, up + 1, up + 2)
        } else {
            (lo, up, n)
        }
    }

    /// Starts the traversal for `merge_size` items, all in single blocks.
    pub fn new(merge_size: usize) -> (r: Self)
        requires
            2 <= merge_size < usize::MAX,
        ensures
            r.wf(),
            r@ == (merge_size as nat, 0nat, 0nat),
            r.spec_size() == merge_size,
            r.remaining() == merge_size - 1,
            forall|x: int| 0 <= x < merge_size ==> #[trigger] r.block_of(x) == (x, x + 1),
            r.block_sizes() == Seq::new(merge_size as nat, |k: int| 1int),
    {
        proof {
            vstd::arithmetic::power2::lemma2_to64();
        }
        let r = Self { size: merge_size, shifted: 1, lower: 0, shifted_level: 0, high_sort_mark: 0 };
        proof {
            assert(r.block_sizes() =~= Seq::new(merge_size as nat, |k: int| 1int));
        }
        r
    }

    /// Yields the next merge step, or `None` once all items form one block.
    ///
    /// The step merges two adjacent current blocks, the ones that `upcoming`
    /// names; the number of steps still to come drops by one.  Every step is a
    /// node of the aligned binary tree over the items: its lower end is a
    /// multiple of twice the lower block's size `2^level`, and it ends
    /// `2^(level + 1)` items on, or at the end of the items.  The step that
    /// leaves a single block is the one whose level satisfies
    /// `2^level < size <= 2^(level + 1)`.  The step's upper end becomes the
    /// highest upper end so far; `singles_to_add` is 2 when the step lies at or
    /// above the highest upper end before it, 1 when only its upper block, a
    /// single item, lies there, and 0 when the step ends within it.
    pub fn next(&mut self) -> (r: Option<MergeStep>)
        requires
            old(self).wf(),
        ensures
            final(self).wf(),
            final(self).spec_size() == old(self).spec_size(),
            r is None <==> old(self).remaining() == 0,
            r is None ==> {
                &&& *final(self) == *old(self)
                &&& forall|x: int|
                    0 <= x < old(self).spec_size() ==> #[trigger] old(self).block_of(x) == (
                        0int,
                        old(self).spec_size() as int,
                    )
            },
            r matches Some(s) ==> {
                &&& (s.lower as int, s.middle as int, s.upper as int) == old(self).upcoming()
                &&& s.lower < s.middle < s.upper <= old(self).spec_size()
                &&& pow2(s.shifted_level as nat) == s.middle - s.lower
                &&& s.lower as nat % (2 * pow2(s.shifted_level as nat)) == 0
                &&& s.upper == if s.lower + 2 * pow2(s.shifted_level as nat) < old(
                    self,
                ).spec_size() {
                    s.lower + 2 * pow2(s.shifted_level as nat)
                } else {
                    old(self).spec_size() as int
                }
                &&& s.singles_to_add == singles_for(s.lower as int, s.middle as int, s.upper as int)
                &&& final(self)@ == (old(self)@.0, s.lower as nat, s.upper as nat)
                &&& old(self)@.2 <= s.upper
                &&& s.singles_to_add <= 2
                &&& s.singles_to_add == 2 ==> s.middle == s.lower + 1 && s.upper == s.middle + 1
                &&& (s.singles_to_add == 2 <==> old(self)@.2 <= s.lower)
                &&& (s.singles_to_add == 1 <==> (s.middle == old(self)@.2 && s.upper == s.middle + 1))
                &&& (s.singles_to_add == 0 <==> s.upper <= old(self)@.2)
                &&& final(self).remaining() + 1 == old(self).remaining()
                &&& forall|x: int|
                    s.lower <= x < s.middle ==> #[trigger] old(self).block_of(x) == (
                        s.lower as int,
                        s.middle as int,
                    )
                &&& forall|x: int|
                    s.middle <= x < s.upper ==> #[trigger] old(self).block_of(x) == (
                        s.middle as int,
                        s.upper as int,
                    )
                &&& forall|x: int|
                    s.lower <= x < s.upper ==> #[trigger] final(self).block_of(x) == (
                        s.lower as int,
                        s.upper as int,
                    )
                &&& forall|x: int|
                    0 <= x < old(self).spec_size() && !(s.lower <= x < s.upper)
                        ==> #[trigger] final(self).block_of(x) == old(self).block_of(x)
                &&& (s.lower == 0 && s.upper == old(self).spec_size()) ==> pow2(
                    s.shifted_level as nat,
                ) < s.upper <= 2 * pow2(s.shifted_level as nat)
            },
    {
        let size = self.size;
        let lo = self.lower;
        let up = self.high_sort_mark;
        let level = self.shifted_level;
        let shifted = self.shifted;
        proof {
            lemma_pow2_is_power_of_two(level as nat);
            lemma_power_of_two_pos(shifted as nat);
        }
        if up == 0 {
            self.lower = 0;
            self.high_sort_mark = 2;
            self.shifted = 1;
            self.shifted_level = 0;
            proof {
                vstd::arithmetic::power2::lemma2_to64();
                assert(completed_count(0) == 0);
            }
            return Some(MergeStep { lower: 0, middle: 1, upper: 2, shifted_level: 0, singles_to_add: 2 });
        }
        if up == size {
            if lo == 0 {
                proof {
                    assert(completed_count(0) == 0);
                }
                return None;
            }
            proof {
                lemma_lowbit(lo as nat);
                assert(completed_count(lo as nat) >= 1);
                lemma_multiple_at_least(lo as nat, shifted as nat);
            }
            // Find the lowest set bit of `lo`: the size of the block before the frontier.
            let mut p = shifted;
            let mut lvl = level;
            while p <= lo - p && lo % (p + p) == 0
                invariant
                    0 < lo < usize::MAX,
                    1 <= p <= lo,
                    lo % p == 0,
                    pow2(lvl as nat) == p,
                    lvl < 64,
                    power_of_two(p as nat),
                decreases lo - p,
            {
                proof {
                    lemma_pow2_unfold((lvl + 1) as nat);
                    lemma_power_of_two_double(p as nat);
                    lemma_pow2_exponent_bound((lvl + 1) as nat);
                    lemma_multiple_of_factor(lo as nat, p as nat, 2);
                }
                p = p + p;
                lvl = lvl + 1;
            }
            proof {
                lemma_multiple_mod_double(lo as nat, p as nat);
                if p > lo - p {
                    lemma_div_mod_of(lo as nat, (2 * p) as nat, 0, lo as nat);
                }
                lemma_lowbit_unique(lo as nat, p as nat);
                lemma_power_of_two_pos(p as nat);
            }
            let new_lo = lo - p;
            proof {
                vstd::arithmetic::div_mod::lemma_fundamental_div_mod(lo as int, (2 * p) as int);
                let q = lo as nat / (2 * p as nat);
                assert(new_lo == q * (2 * p)) by (nonlinear_arith)
                    requires
                        lo == (2 * p) * q + p,
                        new_lo == lo - p,
                ;
                lemma_div_mod_of(new_lo as nat, (2 * p) as nat, q, 0);
                lemma_multiple_of_factor(new_lo as nat, p as nat, 2);
                if p == 1 {
                    assert(lo % 2 == 1);
                }
                vstd::arithmetic::div_mod::lemma_fundamental_div_mod(p as int, 2);
                lemma_multiple_of_factor(new_lo as nat, 2, (p / 2) as nat);
                if new_lo > 0 {
                    lemma_power_of_two_double(p as nat);
                    lemma_lowbit_at_least(new_lo as nat, (2 * p) as nat);
                }
            }
            self.lower = new_lo;
            self.shifted = p;
            self.shifted_level = lvl;
            return Some(
                MergeStep { lower: new_lo, middle: lo, upper: size, shifted_level: lvl, singles_to_add: 0 },
            );
        }
        // The frontier block `[lo, up)` has size `s == 2 * shifted`, and `lo` is a multiple of `s`.

        let s = up - lo;
        proof {
            lemma_pow2_unfold((level + 1) as nat);
            lemma_power_of_two_double(shifted as nat);
            lemma_pow2_exponent_bound((level + 1) as nat);
            assert(s * 1 == s);
            lemma_multiple_of_factor(lo as nat, s as nat, 1);
            if lo > 0 {
                lemma_multiple_at_least(lo as nat, s as nat);
            }
        }
        if lo > 0 && lo % (s + s) != 0 {
            // The block before the frontier has the frontier's size.
            proof {
                lemma_multiple_mod_double(lo as nat, s as nat);
                lemma_lowbit_unique(lo as nat, s as nat);
            }
            let new_lo = lo - s;
            proof {
                vstd::arithmetic::div_mod::lemma_fundamental_div_mod(lo as int, (2 * s) as int);
                lemma_div_mod_of(new_lo as nat, (2 * s) as nat, (lo as nat / (2 * s as nat)) as nat, 0);
                lemma_multiple_of_factor(new_lo as nat, s as nat, 2);
                lemma_multiple_of_factor(new_lo as nat, 2, shifted as nat);
                assert(completed_count(lo as nat) == 1 + completed_count(new_lo as nat));
            }
            self.lower = new_lo;
            self.shifted = s;
            self.shifted_level = level + 1;
            return Some(
                MergeStep {
                    lower: new_lo,
                    middle: lo,
                    upper: up,
                    shifted_level: level + 1,
                    singles_to_add: 0,
                },
            );
        }
        // `lo` is zero or a multiple of `2 * s`, so the frontier is a block of the set bits of `up`.

        proof {
            if lo > 0 {
                lemma_lowbit_at_least(lo as nat, (2 * s) as nat);
                lemma_power_of_two_double(s as nat);
            }
            let q = lo as nat / (2 * s as nat);
            vstd::arithmetic::div_mod::lemma_fundamental_div_mod(lo as int, (2 * s) as int);
            lemma_div_mod_of(up as nat, (2 * s) as nat, q, s as nat);
            lemma_lowbit_unique(up as nat, s as nat);
            lemma_lowbit(up as nat);
            assert(completed_count(up as nat) == 1 + completed_count(lo as nat));
        }
        if up + 1 < size {
            proof {
                vstd::arithmetic::div_mod::lemma_fundamental_div_mod(up as int, (2 * s) as int);
                let uq = up as nat / (2 * s as nat);
                assert(up == uq * (2 * s) + s);
                assert(up == (uq * 2 + 1) * s) by (nonlinear_arith)
                    requires
                        up == uq * (2 * s) + s,
                ;
                lemma_div_mod_of(up as nat, s as nat, uq * 2 + 1, 0);
                lemma_multiple_of_factor(up as nat, 2, shifted as nat);
                vstd::arithmetic::power2::lemma2_to64();
            }
            self.lower = up;
            self.high_sort_mark = up + 2;
            self.shifted = 1;
            self.shifted_level = 0;
            return Some(
                MergeStep { lower: up, middle: up + 1, upper: up + 2, shifted_level: 0, singles_to_add: 2 },
            );
        }
        // One single item is left: absorb it into the frontier block.

        self.high_sort_mark = size;
        self.shifted = s;
        self.shifted_level = level + 1;
        Some(MergeStep { lower: lo, middle: up, upper: size, shifted_level: level + 1, singles_to_add: 1 })
    }

    /// Runs the traversal to its end and returns the remaining steps in order,
    /// as collecting the iterator does.
    ///
    /// There is one step fewer than there are current blocks; each step merges
    /// two adjacent blocks of the partition left by the steps before it, and
    /// at the end all items form one block.  Of each step, `singles_to_add` is
    /// 2 when it lies above every earlier step, 1 when only its upper block is
    /// a fresh single item, and 0 when it ends within the earlier steps.  The
    /// last step merges `[0, 2^level)` with `[2^level, size)`, where
    /// `2^level < size <= 2^(level + 1)`.
    pub fn collect_steps(&mut self) -> (r: Vec<MergeStep>)
        requires
            old(self).wf(),
        ensures
            final(self).wf(),
            final(self).remaining() == 0,
            final(self)@.0 == old(self)@.0,
            r.len() == old(self).remaining(),
            forall|i: int|
                0 <= i < r.len() ==> merges_adjacent(
                    sizes_after(old(self).block_sizes(), r@.take(i)),
                    #[trigger] r@[i],
                ) && step_shape(r@[i], old(self)@.0),
            sizes_after(old(self).block_sizes(), r@) == one_block(old(self)@.0),
            r.len() > 0 ==> r@.last().lower == 0 && r@.last().upper == old(self)@.0,
            forall|i: int|
                0 <= i < r.len() ==> {
                    let hi = highest_upper(old(self)@.2, r@.take(i));
                    &&& (#[trigger] r@[i].singles_to_add == 2 <==> hi <= r@[i].lower)
                    &&& (r@[i].singles_to_add == 1 <==> (r@[i].middle == hi && r@[i].upper
                        == r@[i].middle + 1))
                    &&& (r@[i].singles_to_add == 0 <==> r@[i].upper <= hi)
                },
    {
        let ghost start = *self;
        let ghost sizes0 = self.block_sizes();
        let mut steps: Vec<MergeStep> = Vec::new();
        proof {
            assert(steps@ =~= Seq::<MergeStep>::empty());
        }
        loop
            invariant_except_break
                self.wf(),
                self@.0 == start@.0,
                steps.len() + self.remaining() == start.remaining(),
                sizes_after(sizes0, steps@) == self.block_sizes(),
                highest_upper(start@.2, steps@) == self@.2,
                steps.len() > 0 ==> steps@.last().upper <= self@.0,
                steps.len() > 0 ==> forall|x: int|
                    steps@.last().lower <= x < steps@.last().upper ==> #[trigger] self.block_of(x)
                        == (steps@.last().lower as int, steps@.last().upper as int),
                forall|i: int|
                    0 <= i < steps.len() ==> merges_adjacent(
                        sizes_after(sizes0, steps@.take(i)),
                        #[trigger] steps@[i],
                    ) && step_shape(steps@[i], start@.0),
                forall|i: int|
                    0 <= i < steps.len() ==> {
                        let hi = highest_upper(start@.2, steps@.take(i));
                        &&& (#[trigger] steps@[i].singles_to_add == 2 <==> hi <= steps@[i].lower)
                        &&& (steps@[i].singles_to_add == 1 <==> (steps@[i].middle == hi
                            && steps@[i].upper == steps@[i].middle + 1))
                        &&& (steps@[i].singles_to_add == 0 <==> steps@[i].upper <= hi)
                    },
            ensures
                self.wf(),
                self.remaining() == 0,
                self@.0 == start@.0,
                steps.len() == start.remaining(),
                sizes_after(sizes0, steps@) == one_block(start@.0),
                steps.len() > 0 ==> steps@.last().lower == 0 && steps@.last().upper == start@.0,
                forall|i: int|
                    0 <= i < steps.len() ==> merges_adjacent(
                        sizes_after(sizes0, steps@.take(i)),
                        #[trigger] steps@[i],
                    ) && step_shape(steps@[i], start@.0),
                forall|i: int|
                    0 <= i < steps.len() ==> {
                        let hi = highest_upper(start@.2, steps@.take(i));
                        &&& (#[trigger] steps@[i].singles_to_add == 2 <==> hi <= steps@[i].lower)
                        &&& (steps@[i].singles_to_add == 1 <==> (steps@[i].middle == hi
                            && steps@[i].upper == steps@[i].middle + 1))
                        &&& (steps@[i].singles_to_add == 0 <==> steps@[i].upper <= hi)
                    },
            decreases self.remaining(),
        {
            let ghost before = *self;
            match self.next() {
                None => {
                    proof {
                        let n = before@.0;
                        if steps.len() > 0 {
                            let last = steps@.last();
                            assert(before.block_of(last.lower as int) == (
                                last.lower as int,
                                last.upper as int,
                            ));
                        }
                        assert(before.block_sizes() =~= one_block(n)) by {
                            assert forall|k: int| 0 <= k < n implies before.block_sizes()[k]
                                == one_block(n)[k] by {
                                assert(before.block_of(k) == (0int, n as int));
                            }
                        }
                    }
                    break;
                },
                Some(s) => {
                    proof {
                        let v = before.block_sizes();
                        assert(merges_adjacent(v, s)) by {
                            assert(before.block_of(s.lower as int) == (s.lower as int, s.middle as int));
                            assert(before.block_of(s.middle as int) == (s.middle as int, s.upper as int));
                            assert forall|k: int| s.lower < k < s.upper && k != s.middle implies #[trigger] v[k]
                                == 0 by {
                                if k < s.middle {
                                    assert(before.block_of(k) == (s.lower as int, s.middle as int));
                                } else {
                                    assert(before.block_of(k) == (s.middle as int, s.upper as int));
                                }
                            }
                        }
                        assert(merged_sizes(v, s) =~= self.block_sizes()) by {
                            assert forall|k: int| 0 <= k < v.len() implies merged_sizes(v, s)[k]
                                == self.block_sizes()[k] by {
                                if s.lower <= k < s.upper {
                                    assert(self.block_of(k) == (s.lower as int, s.upper as int));
                                    if k < s.middle {
                                        assert(before.block_of(k) == (s.lower as int, s.middle as int));
                                    } else {
                                        assert(before.block_of(k) == (s.middle as int, s.upper as int));
                                    }
                                } else {
                                    assert(self.block_of(k) == before.block_of(k));
                                }
                            }
                        }
                    }
                    let ghost old_steps = steps@;
                    steps.push(s);
                    proof {
                        assert(steps@.drop_last() =~= old_steps);
                        assert(steps@.take(old_steps.len() as int) =~= old_steps);
                        assert forall|i: int| 0 <= i < old_steps.len() implies steps@.take(i)
                            =~= old_steps.take(i) by {}
                        assert forall|i: int| 0 <= i < steps.len() implies merges_adjacent(
                            sizes_after(sizes0, steps@.take(i)),
                            #[trigger] steps@[i],
                        ) && step_shape(steps@[i], start@.0) by {
                            if i < old_steps.len() {
                                assert(steps@.take(i) =~= old_steps.take(i));
                            }
                        }
                        assert forall|i: int| 0 <= i < steps.len() implies {
                            let hi = highest_upper(start@.2, steps@.take(i));
                            &&& (#[trigger] steps@[i].singles_to_add == 2 <==> hi <= steps@[i].lower)
                            &&& (steps@[i].singles_to_add == 1 <==> (steps@[i].middle == hi
                                && steps@[i].upper == steps@[i].middle + 1))
                            &&& (steps@[i].singles_to_add == 0 <==> steps@[i].upper <= hi)
                        } by {
                            if i < old_steps.len() {
                                assert(steps@.take(i) =~= old_steps.take(i));
                            }
                        }
                    }
                },
            }
        }
        steps
    }
}

} // verus!
