//! Vectors of path metrics and what is done to all their lanes at once.

use vstd::prelude::*;
use vstd::slice::slice_subrange;

verus! {

/// A vector of 16-bit lanes. Narrower widths use the first lanes only.
pub type Vector = [u16; 32];

/// Eight lanes, which is as many as are held at once where the states stay in
/// memory.
pub type Eight = [u16; 8];

/// The width of a vector.
#[derive(Debug, Clone, Copy, PartialEq, Eq)]
pub enum Lane {
    Lane128,
    Lane256,
    Lane512,
}

impl Lane {
    /// The number of 16-bit lanes.
    pub open spec fn width(self) -> int {
        match self {
            Lane::Lane128 => 8,
            Lane::Lane256 => 16,
            Lane::Lane512 => 32,
        }
    }

    #[inline(always)]
    pub fn lanes(self) -> (lanes: usize)
        ensures
            lanes == self.width(),
    {
        match self {
            Lane::Lane128 => 8,
            Lane::Lane256 => 16,
            Lane::Lane512 => 32,
        }
    }

    /// Loads half a vector from `prev[at..]` and doubles each lane: both
    /// successors of a state share it as a predecessor.
    #[inline(always)]
    pub fn load_pred_dup(self, prev: &[u16], at: usize) -> (v: Vector)
        requires
            at + self.width() / 2 <= prev@.len(),
        ensures
            forall|k: int| 0 <= k < self.width() ==> #[trigger] v@[k] == prev@[at + k / 2],
    {
        let lanes: usize = self.lanes();
        let half: usize = lanes / 2;
        assert(at + half <= prev.len());
        let part: &[u16] = slice_subrange(prev, at, at + half);
        let mut v: Vector = [0u16; 32];
        let mut k: usize = 0;
        while k < half
            invariant
                k <= half <= 16,
                half == self.width() / 2,
                self.width() == 2 * half,
                part@.len() == half,
                forall|j: int| 0 <= j < part@.len() ==> #[trigger] part@[j] == prev@[at + j],
                forall|j: int| 0 <= j < 2 * k ==> #[trigger] v@[j] == prev@[at + j / 2],
            decreases half - k,
        {
            let metric: u16 = part[k];
            v[2 * k] = metric;
            v[2 * k + 1] = metric;
            k = k + 1;
        }
        v
    }

    /// Loads a vector from `src[at..]`.
    #[inline(always)]
    pub fn load(self, src: &[u16], at: usize) -> (v: Vector)
        requires
            at + self.width() <= src@.len(),
        ensures
            forall|k: int| 0 <= k < self.width() ==> #[trigger] v@[k] == src@[at + k],
    {
        let lanes: usize = self.lanes();
        assert(at + lanes <= src.len());
        let part: &[u16] = slice_subrange(src, at, at + lanes);
        let mut v: Vector = [0u16; 32];
        let mut k: usize = 0;
        while k < lanes
            invariant
                k <= lanes <= 32,
                lanes == self.width(),
                part@.len() == self.width(),
                forall|j: int| 0 <= j < part@.len() ==> #[trigger] part@[j] == src@[at + j],
                forall|j: int| 0 <= j < k ==> #[trigger] v@[j] == src@[at + j],
            decreases lanes - k,
        {
            v[k] = part[k];
            k = k + 1;
        }
        v
    }

    /// Stores a vector to `dst[at..]`.
    #[inline(always)]
    pub fn store(self, dst: &mut [u16], at: usize, v: &Vector)
        requires
            at + self.width() <= old(dst)@.len(),
        ensures
            final(dst)@.len() == old(dst)@.len(),
            forall|i: int|
                0 <= i < final(dst)@.len() ==> #[trigger] final(dst)@[i] == if at <= i < at
                    + self.width() {
                    v@[i - at]
                } else {
                    old(dst)@[i]
                },
    {
        let lanes: usize = self.lanes();
        let (_, rest) = dst.split_at_mut(at);
        let (part, _) = rest.split_at_mut(lanes);
        let mut k: usize = 0;
        while k < lanes
            invariant
                k <= lanes <= 32,
                lanes == self.width(),
                part@.len() == lanes,
                forall|j: int| 0 <= j < k ==> #[trigger] part@[j] == v@[j],
            decreases lanes - k,
        {
            part[k] = v[k];
            k = k + 1;
        }
    }

    /// Adds costs to metrics on both sides, keeps the smaller sum of each lane, and
    /// marks the lanes where the low side lost.
    #[inline(always)]
    pub fn add_select(
        self,
        low_dist: &Vector,
        low_prev: &Vector,
        high_dist: &Vector,
        high_prev: &Vector,
    ) -> (r: (Vector, [u8; 32]))
        requires
            forall|k: int|
                0 <= k < self.width() ==> #[trigger] low_dist@[k] + low_prev@[k] <= u16::MAX,
            forall|k: int|
                0 <= k < self.width() ==> #[trigger] high_dist@[k] + high_prev@[k] <= u16::MAX,
        ensures
            forall|k: int|
                0 <= k < self.width() ==> #[trigger] r.0@[k] == if low_dist@[k] + low_prev@[k]
                    <= high_dist@[k] + high_prev@[k] {
                    low_dist@[k] + low_prev@[k]
                } else {
                    high_dist@[k] + high_prev@[k]
                },
            forall|k: int|
                0 <= k < self.width() ==> (#[trigger] r.1@[k] != 0) == (low_dist@[k] + low_prev@[k]
                    > high_dist@[k] + high_prev@[k]),
    {
        let lanes: usize = self.lanes();
        let mut v: Vector = [0u16; 32];
        let mut flags: [u8; 32] = [0u8; 32];
        let mut at: usize = 0;
        while at < lanes
            invariant
                at <= lanes <= 32,
                at % 8 == 0,
                lanes == self.width(),
                lanes % 8 == 0,
                forall|k: int|
                    0 <= k < self.width() ==> #[trigger] low_dist@[k] + low_prev@[k] <= u16::MAX,
                forall|k: int|
                    0 <= k < self.width() ==> #[trigger] high_dist@[k] + high_prev@[k] <= u16::MAX,
                forall|k: int|
                    0 <= k < at ==> #[trigger] v@[k] == if low_dist@[k] + low_prev@[k]
                        <= high_dist@[k] + high_prev@[k] {
                        low_dist@[k] + low_prev@[k]
                    } else {
                        high_dist@[k] + high_prev@[k]
                    },
                forall|k: int|
                    0 <= k < at ==> (#[trigger] flags@[k] != 0) == (low_dist@[k] + low_prev@[k]
                        > high_dist@[k] + high_prev@[k]),
            decreases lanes - at,
        {
            let ghost (old_v, old_flags) = (v@, flags@);
            let low: [u16; 8] = add_eight(low_dist, low_prev, at);
            let high: [u16; 8] = add_eight(high_dist, high_prev, at);
            keep_lesser(&mut v, at, &low, &high);
            mark_lost(&mut flags, at, &low, &high);
            proof {
                assert forall|k: int| 0 <= k < at + 8 implies {
                    &&& #[trigger] v@[k] == (if low_dist@[k] + low_prev@[k] <= high_dist@[k]
                        + high_prev@[k] {
                        low_dist@[k] + low_prev@[k]
                    } else {
                        high_dist@[k] + high_prev@[k]
                    })
                    &&& (flags@[k] != 0) == (low_dist@[k] + low_prev@[k] > high_dist@[k]
                        + high_prev@[k])
                } by {
                    if k < at {
                        assert(v@[k] == old_v[k]);
                        assert(flags@[k] == old_flags[k]);
                    } else {
                        let j = k - at;
                        assert(low@[j] == low_dist@[at + j] + low_prev@[at + j]);
                        assert(high@[j] == high_dist@[at + j] + high_prev@[at + j]);
                        assert((flags@[k] != 0) == (low@[j] > high@[j]));
                    }
                }
                assert forall|k: int| 0 <= k < at + 8 implies (#[trigger] flags@[k] != 0) == (
                low_dist@[k] + low_prev@[k] > high_dist@[k] + high_prev@[k]) by {
                    let _ = v@[k];
                }
            }
            at = at + 8;
        }
        (v, flags)
    }

    /// Doubles the lanes of one half of a register.
    #[inline(always)]
    pub fn pred_half(self, prev: &Vector, odd: bool) -> (v: Vector)
        ensures
            forall|k: int|
                0 <= k < self.width() ==> #[trigger] v@[k] == prev@[(if odd {
                    self.width() / 2
                } else {
                    0
                }) + k / 2],
    {
        let lanes: usize = self.lanes();
        let from: usize = if odd {
            lanes / 2
        } else {
            0
        };
        self.load_pred_dup(prev, from)
    }
}

/// The sums of eight lanes from `at` on.
#[inline(always)]
fn add_eight(a: &Vector, b: &Vector, at: usize) -> (sums: [u16; 8])
    requires
        at <= 24,
        forall|k: int| at <= k < at + 8 ==> #[trigger] a@[k] + b@[k] <= u16::MAX,
    ensures
        forall|j: int| 0 <= j < 8 ==> #[trigger] sums@[j] == a@[at + j] + b@[at + j],
{
    let mut sums: [u16; 8] = [0u16; 8];
    let mut j: usize = 0;
    while j < 8
        invariant
            j <= 8,
            at <= 24,
            forall|k: int| at <= k < at + 8 ==> #[trigger] a@[k] + b@[k] <= u16::MAX,
            forall|k: int| 0 <= k < j ==> #[trigger] sums@[k] == a@[at + k] + b@[at + k],
        decreases 8 - j,
    {
        assert(a@[at + j] + b@[at + j] <= u16::MAX);
        sums[j] = a[at + j] + b[at + j];
        j = j + 1;
    }
    sums
}

/// Puts the smaller of each pair into the eight lanes from `at` on.
#[inline(always)]
fn keep_lesser(v: &mut Vector, at: usize, low: &[u16; 8], high: &[u16; 8])
    requires
        at <= 24,
    ensures
        forall|k: int|
            0 <= k < 32 ==> #[trigger] final(v)@[k] == if at <= k < at + 8 {
                if low@[k - at] <= high@[k - at] {
                    low@[k - at]
                } else {
                    high@[k - at]
                }
            } else {
                old(v)@[k]
            },
{
    let ghost before = v@;
    let mut j: usize = 0;
    while j < 8
        invariant
            j <= 8,
            at <= 24,
            forall|k: int|
                0 <= k < 32 ==> #[trigger] v@[k] == if at <= k < at + j {
                    if low@[k - at] <= high@[k - at] {
                        low@[k - at]
                    } else {
                        high@[k - at]
                    }
                } else {
                    before[k]
                },
        decreases 8 - j,
    {
        v[at + j] = if low[j] <= high[j] {
            low[j]
        } else {
            high[j]
        };
        j = j + 1;
    }
}

/// Marks where `low` is worse than `high`, in the eight lanes from `at` on.
#[inline(always)]
fn mark_lost(flags: &mut [u8; 32], at: usize, low: &[u16; 8], high: &[u16; 8])
    requires
        at <= 24,
    ensures
        forall|k: int|
            0 <= k < 32 ==> (#[trigger] final(flags)@[k] != 0) == if at <= k < at + 8 {
                low@[k - at] > high@[k - at]
            } else {
                old(flags)@[k] != 0
            },
        forall|k: int|
            0 <= k < 32 && !(at <= k < at + 8) ==> #[trigger] final(flags)@[k] == old(flags)@[k],
{
    let ghost before = flags@;
    let mut j: usize = 0;
    while j < 8
        invariant
            j <= 8,
            at <= 24,
            forall|k: int|
                0 <= k < 32 ==> (#[trigger] flags@[k] != 0) == if at <= k < at + j {
                    low@[k - at] > high@[k - at]
                } else {
                    before[k] != 0
                },
            forall|k: int|
                0 <= k < 32 && !(at <= k < at + j) ==> #[trigger] flags@[k] == before[k],
        decreases 8 - j,
    {
        flags[at + j] = (low[j] > high[j]) as u8;
        j = j + 1;
    }
}

/// Loads eight lanes from `src[at..]`.
#[inline(always)]
pub fn load_eight(src: &[u16], at: usize) -> (v: Eight)
    requires
        at + 8 <= src@.len(),
    ensures
        forall|k: int| 0 <= k < 8 ==> #[trigger] v@[k] == src@[at + k],
{
    assert(at + 8 <= src.len());
    let part: &[u16] = slice_subrange(src, at, at + 8);
    let mut v: Eight = [0u16; 8];
    let mut k: usize = 0;
    while k < 8
        invariant
            k <= 8,
            part@.len() == 8,
            forall|j: int| 0 <= j < 8 ==> #[trigger] part@[j] == src@[at + j],
            forall|j: int| 0 <= j < k ==> #[trigger] v@[j] == src@[at + j],
        decreases 8 - k,
    {
        v[k] = part[k];
        k = k + 1;
    }
    v
}

/// Adds each of the four metrics from `prev[at..]` to two costs: both successors
/// of a state share it as a predecessor.
#[inline(always)]
pub fn add_pred(costs: &Eight, prev: &[u16], at: usize) -> (sums: Eight)
    requires
        at + 4 <= prev@.len(),
        forall|k: int| 0 <= k < 8 ==> #[trigger] costs@[k] + prev@[at + k / 2] <= u16::MAX,
    ensures
        forall|k: int| 0 <= k < 8 ==> #[trigger] sums@[k] == costs@[k] + prev@[at + k / 2],
{
    assert(at + 4 <= prev.len());
    let part: &[u16] = slice_subrange(prev, at, at + 4);
    let mut sums: Eight = [0u16; 8];
    let mut k: usize = 0;
    while k < 8
        invariant
            k <= 8,
            part@.len() == 4,
            forall|j: int| 0 <= j < 4 ==> #[trigger] part@[j] == prev@[at + j],
            forall|j: int| 0 <= j < 8 ==> #[trigger] costs@[j] + prev@[at + j / 2] <= u16::MAX,
            forall|j: int| 0 <= j < k ==> #[trigger] sums@[j] == costs@[j] + prev@[at + j / 2],
        decreases 8 - k,
    {
        assert(costs@[k as int] + prev@[at + k as int / 2] <= u16::MAX);
        assert(part@[k as int / 2] == prev@[at + k as int / 2]);
        sums[k] = costs[k] + part[k / 2];
        k = k + 1;
    }
    sums
}

/// Stores eight lanes to `dst[at..]`.
#[inline(always)]
pub fn store_eight(dst: &mut [u16], at: usize, v: &Eight)
    requires
        at + 8 <= old(dst)@.len(),
    ensures
        final(dst)@.len() == old(dst)@.len(),
        forall|i: int|
            0 <= i < final(dst)@.len() ==> #[trigger] final(dst)@[i] == if at <= i < at + 8 {
                v@[i - at]
            } else {
                old(dst)@[i]
            },
{
    let (_, rest) = dst.split_at_mut(at);
    let (part, _) = rest.split_at_mut(8);
    let mut k: usize = 0;
    while k < 8
        invariant
            k <= 8,
            part@.len() == 8,
            forall|j: int| 0 <= j < k ==> #[trigger] part@[j] == v@[j],
        decreases 8 - k,
    {
        part[k] = v[k];
        k = k + 1;
    }
}

} // verus!
