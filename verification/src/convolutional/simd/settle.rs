//! Settling all states of one step: each keeps the cheaper of its two branches.

use super::lane::{add_pred, Eight};
use vstd::prelude::*;
use vstd::slice::slice_subrange;

verus! {

/// Where the branch costs of one step come from, eight neighbouring registers at a
/// time.
pub trait BranchCosts {
    /// The tables belong together.
    spec fn inv(&self) -> bool;

    /// The cost of each register.
    spec fn costs(&self) -> Seq<u16>;

    /// The costs of the eight registers from `at` on.
    fn eight(&self, at: usize) -> (v: Eight)
        requires
            self.inv(),
            at % 8 == 0,
            at + 8 <= self.costs().len(),
        ensures
            forall|k: int| 0 <= k < 8 ==> #[trigger] v@[k] == self.costs()[at + k],
    ;

    /// The costs of the 32 registers from `at` on.
    fn four(&self, at: usize) -> (v: (Eight, Eight, Eight, Eight))
        requires
            self.inv(),
            at % 32 == 0,
            at + 32 <= self.costs().len(),
        ensures
            forall|k: int| 0 <= k < 8 ==> #[trigger] v.0@[k] == self.costs()[at + k],
            forall|k: int| 0 <= k < 8 ==> #[trigger] v.1@[k] == self.costs()[at + 8 + k],
            forall|k: int| 0 <= k < 8 ==> #[trigger] v.2@[k] == self.costs()[at + 16 + k],
            forall|k: int| 0 <= k < 8 ==> #[trigger] v.3@[k] == self.costs()[at + 24 + k],
    ;
}

/// The metric of the branch into `s` whose oldest bit is clear.
pub open spec fn low_sum(costs: Seq<u16>, prevs: Seq<u16>, s: int) -> int {
    costs[s] + prevs[s / 2]
}

/// The metric of the branch into `s` whose oldest bit is set.
pub open spec fn high_sum(costs: Seq<u16>, prevs: Seq<u16>, s: int) -> int {
    let n = prevs.len() as int;
    costs[s + n] + prevs[s / 2 + n / 2]
}

/// All of them are within 16 bits, and the two into one state so close that their
/// difference has a sign in 16 bits.
pub open spec fn sums_fit(costs: Seq<u16>, prevs: Seq<u16>) -> bool {
    forall|s: int|
        0 <= s < prevs.len() ==> {
            let high = high_sum(costs, prevs, s);
            &&& #[trigger] low_sum(costs, prevs, s) <= u16::MAX
            &&& high <= u16::MAX
            &&& low_sum(costs, prevs, s) <= high + 0x7fff
            &&& high <= low_sum(costs, prevs, s) + 0x7fff
        }
}

/// State `s` has the lesser metric, and is flagged where the oldest bit is set.
pub open spec fn is_settled(
    costs: Seq<u16>,
    prevs: Seq<u16>,
    errors: Seq<u16>,
    flags: Seq<u8>,
    s: int,
) -> bool {
    let low = low_sum(costs, prevs, s);
    let high = high_sum(costs, prevs, s);
    &&& errors[s] == if low <= high {
        low
    } else {
        high
    }
    &&& (flags[s] != 0) == (low > high)
}

/// The sign of a difference as a flag and as a mask.
proof fn lemma_sign(d: u16)
    ensures
        d < 0x8000 ==> d >> 15 == 0,
        d >= 0x8000 ==> d >> 15 == 1,
        d & 0 == 0,
        d & 0xffff == d,
{
    assert((d < 0x8000 ==> d >> 15 == 0) && (d >= 0x8000 ==> d >> 15 == 1) && d & 0 == 0 && d
        & 0xffff == d) by (bit_vector);
}

/// The lesser of two metrics, and 1 where it is the second. The sign of their
/// difference decides, which takes fewer steps than a comparison.
#[inline(always)]
fn lesser(low: u16, high: u16) -> (r: (u16, u8))
    requires
        low <= high + 0x7fff,
        high <= low + 0x7fff,
    ensures
        r.0 == if low <= high {
            low
        } else {
            high
        },
        (r.1 != 0) == (low > high),
{
    let diff: u16 = high.wrapping_sub(low);
    proof {
        lemma_sign(diff);
    }
    let sign: u16 = diff >> 15;
    let mask: u16 = 0u16.wrapping_sub(sign);
    (low.wrapping_add(diff & mask), sign as u8)
}

/// Keeps the lesser of each two, and flags where it is the second.
#[inline(always)]
fn keep_eight(low: &Eight, high: &Eight, errors: &mut [u16], flags: &mut [u8])
    requires
        old(errors)@.len() == 8,
        old(flags)@.len() == 8,
        forall|k: int|
            0 <= k < 8 ==> #[trigger] low@[k] <= high@[k] + 0x7fff && high@[k] <= low@[k] + 0x7fff,
    ensures
        final(errors)@.len() == 8,
        final(flags)@.len() == 8,
        forall|k: int|
            0 <= k < 8 ==> #[trigger] final(errors)@[k] == if low@[k] <= high@[k] {
                low@[k]
            } else {
                high@[k]
            },
        forall|k: int| 0 <= k < 8 ==> (#[trigger] final(flags)@[k] != 0) == (low@[k] > high@[k]),
{
    let mut k: usize = 0;
    while k < 8
        invariant
            k <= 8,
            errors@.len() == 8,
            flags@.len() == 8,
            forall|j: int|
                0 <= j < 8 ==> #[trigger] low@[j] <= high@[j] + 0x7fff && high@[j] <= low@[j]
                    + 0x7fff,
            forall|j: int|
                0 <= j < k ==> #[trigger] errors@[j] == if low@[j] <= high@[j] {
                    low@[j]
                } else {
                    high@[j]
                },
            forall|j: int| 0 <= j < k ==> (#[trigger] flags@[j] != 0) == (low@[j] > high@[j]),
        decreases 8 - k,
    {
        assert(low@[k as int] <= high@[k as int] + 0x7fff);
        let (error, flag): (u16, u8) = lesser(low[k], high[k]);
        errors[k] = error;
        flags[k] = flag;
        k = k + 1;
    }
}

/// Settles the eight states from `s` on. The metrics are those of their
/// predecessors, from `at` on in each of the two parts.
#[inline(always)]
fn settle_eight(
    low_costs: &Eight,
    high_costs: &Eight,
    prev_low: &[u16],
    prev_high: &[u16],
    at: usize,
    errors: &mut [u16],
    flags: &mut [u8],
    Ghost(costs): Ghost<Seq<u16>>,
    Ghost(prevs): Ghost<Seq<u16>>,
    Ghost(s): Ghost<int>,
)
    requires
        old(errors)@.len() == 8,
        old(flags)@.len() == 8,
        at + 4 <= prev_low@.len(),
        at + 4 <= prev_high@.len(),
        0 <= s,
        s % 8 == 0,
        s + 8 <= prevs.len(),
        prevs.len() % 2 == 0,
        sums_fit(costs, prevs),
        forall|k: int| 0 <= k < 8 ==> #[trigger] low_costs@[k] == costs[s + k],
        forall|k: int| 0 <= k < 8 ==> #[trigger] high_costs@[k] == costs[s + k + prevs.len()],
        forall|j: int| 0 <= j < 4 ==> #[trigger] prev_low@[at + j] == prevs[s / 2 + j],
        forall|j: int|
            0 <= j < 4 ==> #[trigger] prev_high@[at + j] == prevs[s / 2 + prevs.len() as int / 2
                + j],
    ensures
        final(errors)@.len() == 8,
        final(flags)@.len() == 8,
        forall|k: int|
            0 <= k < 8 ==> {
                let low = low_sum(costs, prevs, s + k);
                let high = high_sum(costs, prevs, s + k);
                &&& #[trigger] final(errors)@[k] == if low <= high {
                    low
                } else {
                    high
                }
                &&& (final(flags)@[k] != 0) == (low > high)
            },
{
    assert forall|k: int| 0 <= k < 8 implies {
        &&& #[trigger] low_costs@[k] + prev_low@[at + k / 2] == low_sum(costs, prevs, s + k)
        &&& high_costs@[k] + prev_high@[at + k / 2] == high_sum(costs, prevs, s + k)
        &&& low_sum(costs, prevs, s + k) <= u16::MAX
        &&& high_sum(costs, prevs, s + k) <= u16::MAX
    } by {
        let j = k / 2;
        assert(0 <= j < 4);
        assert((s + k) / 2 == s / 2 + j);
        assert(prev_low@[at + j] == prevs[s / 2 + j]);
        assert(prev_high@[at + j] == prevs[s / 2 + prevs.len() as int / 2 + j]);
        assert(high_costs@[k] == costs[s + k + prevs.len()]);
    }
    assert forall|k: int| 0 <= k < 8 implies #[trigger] high_costs@[k] + prev_high@[at + k / 2]
        <= u16::MAX by {
        assert(low_costs@[k] + prev_low@[at + k / 2] == low_sum(costs, prevs, s + k));
    }
    let low: Eight = add_pred(low_costs, prev_low, at);
    let high: Eight = add_pred(high_costs, prev_high, at);
    assert forall|k: int| 0 <= k < 8 implies #[trigger] low@[k] <= high@[k] + 0x7fff && high@[k]
        <= low@[k] + 0x7fff by {
        assert(low_costs@[k] + prev_low@[at + k / 2] == low_sum(costs, prevs, s + k));
        assert(high@[k] == high_costs@[k] + prev_high@[at + k / 2]);
    }
    keep_eight(&low, &high, errors, flags);
    assert forall|k: int| 0 <= k < 8 implies {
        let l = low_sum(costs, prevs, s + k);
        let h = high_sum(costs, prevs, s + k);
        &&& #[trigger] errors@[k] == if l <= h {
            l
        } else {
            h
        }
        &&& (flags@[k] != 0) == (l > h)
    } by {
        assert(low_costs@[k] + prev_low@[at + k / 2] == low_sum(costs, prevs, s + k));
        assert(low@[k] == low_costs@[k] + prev_low@[at + k / 2]);
        assert(high@[k] == high_costs@[k] + prev_high@[at + k / 2]);
    }
}

/// Settles eight of the states from `first` on, those whose predecessors start
/// `at` places into each part.
#[inline(always)]
fn settle_group(
    low: &Eight,
    high: &Eight,
    prev_low: &[u16],
    prev_high: &[u16],
    at: usize,
    errors: &mut [u16],
    flags: &mut [u8],
    Ghost(costs): Ghost<Seq<u16>>,
    Ghost(prevs): Ghost<Seq<u16>>,
    Ghost(first): Ghost<int>,
)
    requires
        costs.len() == 2 * prevs.len(),
        prevs.len() % 8 == 0,
        old(errors)@.len() == 8,
        old(flags)@.len() == 8,
        0 <= first,
        first % 8 == 0,
        at % 4 == 0,
        at + 4 <= prev_low@.len() <= 16,
        at + 4 <= prev_high@.len(),
        first + 2 * at + 8 <= prevs.len(),
        sums_fit(costs, prevs),
        forall|k: int| 0 <= k < 8 ==> #[trigger] low@[k] == costs[first + 2 * at + k],
        forall|k: int|
            0 <= k < 8 ==> #[trigger] high@[k] == costs[prevs.len() + first + 2 * at + k],
        forall|j: int| 0 <= j < prev_low@.len() ==> #[trigger] prev_low@[j] == prevs[first / 2 + j],
        forall|j: int|
            0 <= j < prev_high@.len() ==> #[trigger] prev_high@[j] == prevs[first / 2
                + prevs.len() as int / 2 + j],
    ensures
        final(errors)@.len() == 8,
        final(flags)@.len() == 8,
        forall|k: int|
            0 <= k < 8 ==> {
                let l = low_sum(costs, prevs, first + 2 * at + k);
                let h = high_sum(costs, prevs, first + 2 * at + k);
                &&& #[trigger] final(errors)@[k] == if l <= h {
                    l
                } else {
                    h
                }
                &&& (final(flags)@[k] != 0) == (l > h)
            },
{
    let ghost s = first + 2 * at;
    assert forall|k: int| 0 <= k < 8 implies #[trigger] high@[k] == costs[s + k + prevs.len()] by {
        assert(high@[k] == costs[prevs.len() + first + 2 * at + k]);
    }
    assert forall|j: int| 0 <= j < 4 implies #[trigger] prev_low@[at + j] == prevs[s / 2 + j] by {
        assert(s / 2 + j == first / 2 + (at + j));
    }
    assert forall|j: int| 0 <= j < 4 implies #[trigger] prev_high@[at + j] == prevs[s / 2
        + prevs.len() as int / 2 + j] by {
        assert(s / 2 + j == first / 2 + (at + j));
    }
    settle_eight(
        low,
        high,
        prev_low,
        prev_high,
        at,
        errors,
        flags,
        Ghost(costs),
        Ghost(prevs),
        Ghost(s),
    );
}

/// The states from `first` on are settled in these parts.
spec fn part_settled(
    costs: Seq<u16>,
    prevs: Seq<u16>,
    errors: Seq<u16>,
    flags: Seq<u8>,
    first: int,
) -> bool {
    &&& errors.len() == flags.len()
    &&& forall|k: int|
        0 <= k < errors.len() ==> {
            let low = low_sum(costs, prevs, first + k);
            let high = high_sum(costs, prevs, first + k);
            &&& #[trigger] errors[k] == if low <= high {
                low
            } else {
                high
            }
            &&& (flags[k] != 0) == (low > high)
        }
}

/// Settles 32 states.
#[inline(always)]
fn settle_32<C: BranchCosts>(
    source: &C,
    previous: &[u16],
    first: usize,
    errors: &mut [u16],
    flags: &mut [u8],
)
    requires
        source.inv(),
        source.costs().len() == 2 * previous@.len(),
        previous@.len() <= 32768,
        previous@.len() % 32 == 0,
        first % 32 == 0,
        first + 32 <= previous@.len(),
        old(errors)@.len() == 32,
        old(flags)@.len() == 32,
        sums_fit(source.costs(), previous@),
    ensures
        final(errors)@.len() == 32,
        final(flags)@.len() == 32,
        part_settled(
            source.costs(),
            previous@,
            final(errors)@,
            final(flags)@,
            first as int,
        ),
{
    let n: usize = previous.len();
    let ghost prevs = previous@;
    let prev_low: &[u16] = slice_subrange(previous, first / 2, first / 2 + 16);
    let prev_high: &[u16] = slice_subrange(previous, first / 2 + n / 2, first / 2 + n / 2 + 16);
    let (e01, e23) = errors.split_at_mut(16);
    let (e0, e1) = e01.split_at_mut(8);
    let (e2, e3) = e23.split_at_mut(8);
    let (f01, f23) = flags.split_at_mut(16);
    let (f0, f1) = f01.split_at_mut(8);
    let (f2, f3) = f23.split_at_mut(8);
    let ghost costs = source.costs();
    let ghost at = first as int;
    let (l0, l1, l2, l3) = source.four(first);
    let (h0, h1, h2, h3) = source.four(n + first);
    let (gc, gp, gf) = (Ghost(costs), Ghost(prevs), Ghost(at));
    settle_group(&l0, &h0, prev_low, prev_high, 0, e0, f0, gc, gp, gf);
    settle_group(&l1, &h1, prev_low, prev_high, 4, e1, f1, gc, gp, gf);
    settle_group(&l2, &h2, prev_low, prev_high, 8, e2, f2, gc, gp, gf);
    settle_group(&l3, &h3, prev_low, prev_high, 12, e3, f3, gc, gp, gf);
    proof {
        let (a0, a1, a2, a3) = (e0@, e1@, e2@, e3@);
        let (b0, b1, b2, b3) = (f0@, f1@, f2@, f3@);
        let all = (a0 + a1) + (a2 + a3);
        let set = (b0 + b1) + (b2 + b3);
        assert forall|k: int| 0 <= k < 32 implies {
            let low = low_sum(costs, prevs, first + k);
            let high = high_sum(costs, prevs, first + k);
            &&& #[trigger] all[k] == if low <= high {
                low
            } else {
                high
            }
            &&& (set[k] != 0) == (low > high)
        } by {
            let i = k % 8;
            if k < 8 {
                assert(all[k] == a0[i] && set[k] == b0[i]);
            } else if k < 16 {
                assert(all[k] == a1[i] && set[k] == b1[i]);
            } else if k < 24 {
                assert(all[k] == a2[i] && set[k] == b2[i]);
            } else {
                assert(all[k] == a3[i] && set[k] == b3[i]);
            }
        }
        assert(part_settled(costs, prevs, all, set, first as int));
    }
}

/// Settles every state.
#[inline(always)]
pub fn settle_all<C: BranchCosts>(
    source: &C,
    previous: &[u16],
    errors: &mut [u16],
    flags: &mut [u8],
)
    requires
        source.inv(),
        source.costs().len() == 2 * previous@.len(),
        previous@.len() <= 32768,
        previous@.len() % 8 == 0,
        previous@.len() < 32 || previous@.len() % 32 == 0,
        old(errors)@.len() == previous@.len(),
        old(flags)@.len() == previous@.len(),
        sums_fit(source.costs(), previous@),
    ensures
        final(errors)@.len() == previous@.len(),
        final(flags)@.len() == previous@.len(),
        forall|s: int|
            0 <= s < previous@.len() ==> #[trigger] is_settled(
                source.costs(),
                previous@,
                final(errors)@,
                final(flags)@,
                s,
            ),
{
    let n: usize = previous.len();
    let ghost costs = source.costs();
    let mut s: usize = 0;
    while n - s >= 32
        invariant
            n == previous@.len() == errors@.len() == flags@.len(),
            n <= 32768,
            n % 8 == 0,
            n < 32 || n % 32 == 0,
            s <= n,
            s % 32 == 0,
            source.inv(),
            costs == source.costs(),
            costs.len() == 2 * n,
            sums_fit(costs, previous@),
            forall|i: int|
                0 <= i < s ==> #[trigger] is_settled(costs, previous@, errors@, flags@, i),
        decreases n - s,
    {
        let ghost (old_errors, old_flags) = (errors@, flags@);
        let (_, rest) = errors.split_at_mut(s);
        let (part, _) = rest.split_at_mut(32);
        let (_, flag_rest) = flags.split_at_mut(s);
        let (flag_part, _) = flag_rest.split_at_mut(32);
        settle_32(source, previous, s, part, flag_part);
        let ghost (ep, fp) = (part@, flag_part@);
        assert forall|i: int| 0 <= i < s + 32 implies #[trigger] is_settled(
            costs,
            previous@,
            errors@,
            flags@,
            i,
        ) by {
            if i < s {
                assert(is_settled(costs, previous@, old_errors, old_flags, i));
                assert(errors@[i] == old_errors[i] && flags@[i] == old_flags[i]);
            } else {
                assert(errors@[i] == ep[i - s] && flags@[i] == fp[i - s]);
            }
        }
        s = s + 32;
    }
    while s < n
        invariant
            n == previous@.len() == errors@.len() == flags@.len(),
            n <= 32768,
            n % 8 == 0,
            s <= n,
            s % 8 == 0,
            source.inv(),
            costs == source.costs(),
            costs.len() == 2 * n,
            sums_fit(costs, previous@),
            forall|i: int|
                0 <= i < s ==> #[trigger] is_settled(costs, previous@, errors@, flags@, i),
        decreases n - s,
    {
        let ghost (old_errors, old_flags) = (errors@, flags@);
        let prev_low: &[u16] = slice_subrange(previous, s / 2, s / 2 + 4);
        let prev_high: &[u16] = slice_subrange(previous, s / 2 + n / 2, s / 2 + n / 2 + 4);
        let (_, rest) = errors.split_at_mut(s);
        let (part, _) = rest.split_at_mut(8);
        let (_, flag_rest) = flags.split_at_mut(s);
        let (flag_part, _) = flag_rest.split_at_mut(8);
        let low: Eight = source.eight(s);
        let high: Eight = source.eight(n + s);
        settle_group(
            &low,
            &high,
            prev_low,
            prev_high,
            0,
            part,
            flag_part,
            Ghost(costs),
            Ghost(previous@),
            Ghost(s as int),
        );
        let ghost (ep, fp) = (part@, flag_part@);
        assert forall|i: int| 0 <= i < s + 8 implies #[trigger] is_settled(
            costs,
            previous@,
            errors@,
            flags@,
            i,
        ) by {
            if i < s {
                assert(is_settled(costs, previous@, old_errors, old_flags, i));
                assert(errors@[i] == old_errors[i] && flags@[i] == old_flags[i]);
            } else {
                assert(errors@[i] == ep[i - s] && flags@[i] == fp[i - s]);
            }
        }
        s = s + 8;
    }
}

} // verus!
