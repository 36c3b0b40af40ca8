//! The costs of all outputs of a step, three encoded bits at a time.
//!
//! The costs of up to three bits make eight sums, one per combination. Crossing
//! three such groups gives the costs of all combinations of up to eight bits.

use super::super::channel::{costs_match, ConvolutionalError};
use super::super::tables::is_distances;
use super::super::trellis::{bounded_cost, dist_upto, nat_bit};
use super::super::util;
use super::super::viterbi::Run;
use vstd::arithmetic::power2::{lemma2_to64, lemma_pow2_strictly_increases, pow2};
use vstd::prelude::*;

verus! {

/// The cost of encoded bit `i` having the value `b`; nothing past the end.
pub open spec fn cost_at(zero: Seq<u16>, one: Seq<u16>, i: int, b: bool) -> int {
    if i >= 8 {
        0
    } else if b {
        one[i] as int
    } else {
        zero[i] as int
    }
}

/// The cost of the low `n` bits of `out`.
pub open spec fn cost_sum(zero: Seq<u16>, one: Seq<u16>, out: nat, n: nat) -> int
    decreases n,
{
    if n == 0 {
        0
    } else {
        cost_sum(zero, one, out, (n - 1) as nat) + cost_at(
            zero,
            one,
            n - 1,
            nat_bit(out, (n - 1) as nat),
        )
    }
}

/// The cost of three bits from `from` on, for the combination `k`.
pub open spec fn cost3(zero: Seq<u16>, one: Seq<u16>, from: int, k: nat) -> int {
    cost_at(zero, one, from, nat_bit(k, 0)) + cost_at(zero, one, from + 1, nat_bit(k, 1)) + cost_at(
        zero,
        one,
        from + 2,
        nat_bit(k, 2),
    )
}

proof fn lemma_cost_sum(
    zero: Seq<u16>,
    one: Seq<u16>,
    cost: spec_fn(int, bool) -> nat,
    pos: int,
    rate: nat,
    out: nat,
    n: nat,
)
    requires
        rate <= 8,
        costs_match(zero, cost, pos, false, rate as int),
        costs_match(one, cost, pos, true, rate as int),
        forall|j: int| rate <= j < 8 ==> #[trigger] zero[j] == 0,
        forall|j: int| rate <= j < 8 ==> #[trigger] one[j] == 0,
    ensures
        cost_sum(zero, one, out, n) == dist_upto(
            cost,
            pos,
            out,
            if n <= rate {
                n
            } else {
                rate
            },
        ),
    decreases n,
{
    if n > 0 {
        let m = (n - 1) as nat;
        lemma_cost_sum(zero, one, cost, pos, rate, out, m);
        if n <= rate {
            assert(zero[m as int] == cost(pos + m, false));
            assert(one[m as int] == cost(pos + m, true));
        }
    }
}

/// Three bits below and the rest above.
proof fn lemma_three_bits(x: nat, k: nat, j: nat)
    requires
        k < 8,
    ensures
        j < 3 ==> nat_bit(8 * x + k, j) == nat_bit(k, j),
        nat_bit(8 * x + k, j + 3) == nat_bit(x, j),
{
    let o = 8 * x + k;
    assert(o / 2 / 2 / 2 == x);
    assert(nat_bit(o, j + 3) == nat_bit(o / 2, j + 2));
    assert(nat_bit(o / 2, j + 2) == nat_bit(o / 2 / 2, j + 1));
    assert(nat_bit(o / 2 / 2, j + 1) == nat_bit(o / 2 / 2 / 2, j));
    if j < 3 {
        reveal_with_fuel(nat_bit, 4);
        assert((o / 2) % 2 == (k / 2) % 2);
        assert((o / 2 / 2) % 2 == (k / 2 / 2) % 2);
    }
}

/// The cost of an output is the sum over its three groups of bits.
proof fn lemma_crossed(zero: Seq<u16>, one: Seq<u16>, c: nat, b: nat, k: nat)
    requires
        b < 8,
        k < 8,
        c < 8,
    ensures
        cost_sum(zero, one, 64 * c + 8 * b + k, 9) == cost3(zero, one, 0, k) + cost3(
            zero,
            one,
            3,
            b,
        ) + cost3(zero, one, 6, c),
{
    let x = 8 * c + b;
    let o = 8 * x + k;
    assert(o == 64 * c + 8 * b + k);
    lemma_three_bits(x, k, 0);
    lemma_three_bits(x, k, 1);
    lemma_three_bits(x, k, 2);
    lemma_three_bits(c, b, 0);
    lemma_three_bits(c, b, 1);
    lemma_three_bits(c, b, 2);
    lemma_three_bits(x, k, 3);
    lemma_three_bits(x, k, 4);
    lemma_three_bits(x, k, 5);
    reveal_with_fuel(cost_sum, 10);
}

/// The costs of encoded bit `i`, zeros past the end.
fn cost_pair(zero: &[u16; 8], one: &[u16; 8], i: usize) -> (pair: (u16, u16))
    ensures
        pair.0 == cost_at(zero@, one@, i as int, false),
        pair.1 == cost_at(zero@, one@, i as int, true),
{
    if i < 8 {
        (zero[i], one[i])
    } else {
        (0, 0)
    }
}

/// The eight combined costs of three bits from `from` on.
pub fn dist3_from(zero: &[u16; 8], one: &[u16; 8], from: usize) -> (dist: [u16; 8])
    requires
        from <= 6,
        forall|j: int| 0 <= j < 8 ==> #[trigger] zero@[j] <= 255,
        forall|j: int| 0 <= j < 8 ==> #[trigger] one@[j] <= 255,
    ensures
        forall|k: int|
            0 <= k < 8 ==> #[trigger] dist@[k] == cost3(zero@, one@, from as int, k as nat),
        forall|k: int| 0 <= k < 8 ==> #[trigger] dist@[k] <= 765,
{
    let (a0, a1): (u16, u16) = cost_pair(zero, one, from);
    let (b0, b1): (u16, u16) = cost_pair(zero, one, from + 1);
    let (c0, c1): (u16, u16) = cost_pair(zero, one, from + 2);
    let dist: [u16; 8] = [
        a0 + b0 + c0,
        a1 + b0 + c0,
        a0 + b1 + c0,
        a1 + b1 + c0,
        a0 + b0 + c1,
        a1 + b0 + c1,
        a0 + b1 + c1,
        a1 + b1 + c1,
    ];
    proof {
        reveal_with_fuel(nat_bit, 4);
        assert forall|k: int| 0 <= k < 8 implies #[trigger] dist@[k] == cost3(
            zero@,
            one@,
            from as int,
            k as nat,
        ) by {
            assert(k == 0 || k == 1 || k == 2 || k == 3 || k == 4 || k == 5 || k == 6 || k == 7);
        }
    }
    dist
}

/// Reads the costs of one step and combines those of its first three bits.
pub fn fill_next_distances_register(
    distance_fill: &mut ConvolutionalError,
    rate: u32,
    Ghost(run): Ghost<Run>,
    Ghost(t): Ghost<int>,
) -> (dist: [u16; 8])
    requires
        1 <= rate <= 3,
        run.valid(),
        run.code.rate == rate,
        old(distance_fill).ready(run.num_bits()),
        old(distance_fill).pos() == t * run.code.rate,
        old(distance_fill).cost() == run.cost,
        0 <= t < run.total,
    ensures
        is_distances(dist@, run, t),
        final(distance_fill).ready(run.num_bits()),
        final(distance_fill).pos() == (t + 1) * run.code.rate,
        final(distance_fill).cost() == run.cost,
{
    let ghost pos = distance_fill.pos();
    proof {
        lemma_step_room(run, t);
        lemma2_to64();
        if rate < 3 {
            lemma_pow2_strictly_increases(rate as nat, 3);
        }
    }
    let (zero, one) = distance_fill.read_costs(rate, Ghost(run.num_bits()));
    proof {
        lemma_costs_small(zero@, one@, run.cost, pos, rate as nat);
    }
    let dist: [u16; 8] = dist3_from(&zero, &one, 0);
    proof {
        assert forall|o: int| 0 <= o < pow2(run.code.rate) implies #[trigger] dist@[o]
            == run.code.dist(run.cost, t, o as nat) by {
            lemma_cost_sum(zero@, one@, run.cost, pos, rate as nat, o as nat, 3);
            reveal_with_fuel(cost_sum, 4);
        }
    }
    dist
}

/// Costs read from the channel are small.
proof fn lemma_costs_small(
    zero: Seq<u16>,
    one: Seq<u16>,
    cost: spec_fn(int, bool) -> nat,
    pos: int,
    rate: nat,
)
    requires
        rate <= 8,
        bounded_cost(cost),
        costs_match(zero, cost, pos, false, rate as int),
        costs_match(one, cost, pos, true, rate as int),
        forall|j: int| rate <= j < 8 ==> #[trigger] zero[j] == 0,
        forall|j: int| rate <= j < 8 ==> #[trigger] one[j] == 0,
    ensures
        forall|j: int| 0 <= j < 8 ==> #[trigger] zero[j] <= 255,
        forall|j: int| 0 <= j < 8 ==> #[trigger] one[j] <= 255,
{
    assert forall|j: int| 0 <= j < 8 implies #[trigger] zero[j] <= 255 by {
        if j < rate {
            assert(zero[j] == cost(pos + j, false));
        }
    }
    assert forall|j: int| 0 <= j < 8 implies #[trigger] one[j] <= 255 by {
        if j < rate {
            assert(one[j] == cost(pos + j, true));
        }
    }
}

/// A step's bits end where the next step's begin, within the block.
pub proof fn lemma_step_room(run: Run, t: int)
    requires
        0 <= t < run.total,
        run.code.rate >= 1,
    ensures
        t * run.code.rate + run.code.rate == (t + 1) * run.code.rate,
        t * run.code.rate + run.code.rate <= run.num_bits(),
{
    let rate = run.code.rate as int;
    assert((t + 1) * rate == t * rate + rate) by (nonlinear_arith);
    assert(t * rate + rate <= run.total * rate) by (nonlinear_arith)
        requires
            t < run.total,
            rate >= 1,
    ;
}

/// Reads the costs of one step and fills in those of all its outputs.
#[verifier::rlimit(30)]
pub fn fill_next_distances(
    distance_fill: &mut ConvolutionalError,
    out: &mut [u16],
    rate: u32,
    Ghost(run): Ghost<Run>,
    Ghost(t): Ghost<int>,
)
    requires
        1 <= rate <= 8,
        run.valid(),
        run.code.rate == rate,
        old(out)@.len() >= 64,
        old(out)@.len() >= pow2(rate as nat),
        old(distance_fill).ready(run.num_bits()),
        old(distance_fill).pos() == t * run.code.rate,
        old(distance_fill).cost() == run.cost,
        0 <= t < run.total,
    ensures
        final(out)@.len() == old(out)@.len(),
        is_distances(final(out)@, run, t),
        final(distance_fill).ready(run.num_bits()),
        final(distance_fill).pos() == (t + 1) * run.code.rate,
        final(distance_fill).cost() == run.cost,
{
    let ghost pos = distance_fill.pos();
    let ghost len = out@.len();
    proof {
        lemma_step_room(run, t);
        lemma2_to64();
    }
    let (zero, one) = distance_fill.read_costs(rate, Ghost(run.num_bits()));
    proof {
        lemma_costs_small(zero@, one@, run.cost, pos, rate as nat);
    }
    let d0: [u16; 8] = dist3_from(&zero, &one, 0);
    let d1: [u16; 8] = dist3_from(&zero, &one, 3);
    let d2: [u16; 8] = dist3_from(&zero, &one, 6);
    let d1_bits: u32 = if rate <= 3 {
        0
    } else if rate <= 6 {
        rate - 3
    } else {
        3
    };
    let d2_bits: u32 = if rate <= 6 {
        0
    } else {
        rate - 6
    };
    let d1_lanes: usize = util::num_states_for_order(d1_bits) as usize;
    let d2_lanes: usize = util::num_states_for_order(d2_bits) as usize;
    assert(d1_lanes <= 8 && d2_lanes <= 4 && (d2_lanes > 1 ==> d1_lanes == 8) && d1_lanes >= 1);
    assert(8 * (d2_lanes * d1_lanes) >= pow2(rate as nat) && 8 * (d2_lanes * d1_lanes) <= len) by {
        assert(rate == 1 || rate == 2 || rate == 3 || rate == 4 || rate == 5 || rate == 6 || rate
            == 7 || rate == 8);
    }
    assert(0 * d1_lanes == 0);
    let mut c: usize = 0;
    while c < d2_lanes
        invariant
            c <= d2_lanes <= 4,
            1 <= rate <= 8,
            1 <= d1_lanes <= 8,
            d2_lanes > 1 ==> d1_lanes == 8,
            8 * (d2_lanes * d1_lanes) <= len,
            out@.len() == len,
            run.code.rate == rate,
            pos == t * run.code.rate,
            forall|k: int| 0 <= k < 8 ==> #[trigger] d0@[k] == cost3(zero@, one@, 0, k as nat),
            forall|k: int| 0 <= k < 8 ==> #[trigger] d0@[k] <= 765,
            forall|k: int| 0 <= k < 8 ==> #[trigger] d1@[k] == cost3(zero@, one@, 3, k as nat),
            forall|k: int| 0 <= k < 8 ==> #[trigger] d1@[k] <= 765,
            forall|k: int| 0 <= k < 8 ==> #[trigger] d2@[k] == cost3(zero@, one@, 6, k as nat),
            forall|k: int| 0 <= k < 8 ==> #[trigger] d2@[k] <= 765,
            costs_match(zero@, run.cost, pos, false, rate as int),
            costs_match(one@, run.cost, pos, true, rate as int),
            forall|j: int| rate <= j < 8 ==> #[trigger] zero@[j] == 0,
            forall|j: int| rate <= j < 8 ==> #[trigger] one@[j] == 0,
            forall|o: int|
                0 <= o < 8 * (c * d1_lanes) ==> #[trigger] out@[o] == run.code.dist(
                    run.cost,
                    t,
                    o as nat,
                ),
        decreases d2_lanes - c,
    {
        let ghost first = c * d1_lanes;
        assert(0 <= first && first + d1_lanes == (c + 1) * d1_lanes && (c + 1) * d1_lanes
            <= d2_lanes * d1_lanes) by (nonlinear_arith)
            requires
                first == c * d1_lanes,
                c + 1 <= d2_lanes,
        ;
        let mut b: usize = 0;
        while b < d1_lanes
            invariant
                c < d2_lanes <= 4,
                b <= d1_lanes,
                1 <= rate <= 8,
                1 <= d1_lanes <= 8,
                d2_lanes > 1 ==> d1_lanes == 8,
                first == c * d1_lanes,
                0 <= first,
                8 * (first + d1_lanes) <= len,
                out@.len() == len,
                run.code.rate == rate,
                pos == t * run.code.rate,
                forall|k: int| 0 <= k < 8 ==> #[trigger] d0@[k] == cost3(zero@, one@, 0, k as nat),
                forall|k: int| 0 <= k < 8 ==> #[trigger] d0@[k] <= 765,
                forall|k: int| 0 <= k < 8 ==> #[trigger] d1@[k] == cost3(zero@, one@, 3, k as nat),
                forall|k: int| 0 <= k < 8 ==> #[trigger] d1@[k] <= 765,
                forall|k: int| 0 <= k < 8 ==> #[trigger] d2@[k] == cost3(zero@, one@, 6, k as nat),
                forall|k: int| 0 <= k < 8 ==> #[trigger] d2@[k] <= 765,
                costs_match(zero@, run.cost, pos, false, rate as int),
                costs_match(one@, run.cost, pos, true, rate as int),
                forall|j: int| rate <= j < 8 ==> #[trigger] zero@[j] == 0,
                forall|j: int| rate <= j < 8 ==> #[trigger] one@[j] == 0,
                forall|o: int|
                    0 <= o < 8 * (first + b) ==> #[trigger] out@[o] == run.code.dist(
                        run.cost,
                        t,
                        o as nat,
                    ),
            decreases d1_lanes - b,
        {
            let chunk: usize = c * d1_lanes + b;
            assert(8 * chunk == 64 * c + 8 * b) by {
                if c == 0 {
                    assert(0 * d1_lanes == 0);
                }
            }
            let mut k: usize = 0;
            while k < 8
                invariant
                    c < d2_lanes <= 4,
                    b < d1_lanes <= 8,
                    k <= 8,
                    1 <= rate <= 8,
                    chunk == first + b,
                    8 * chunk == 64 * c + 8 * b,
                    8 * (first + d1_lanes) <= len,
                    out@.len() == len,
                    run.code.rate == rate,
                    pos == t * run.code.rate,
                    forall|k: int|
                        0 <= k < 8 ==> #[trigger] d0@[k] == cost3(zero@, one@, 0, k as nat),
                    forall|k: int| 0 <= k < 8 ==> #[trigger] d0@[k] <= 765,
                    forall|k: int|
                        0 <= k < 8 ==> #[trigger] d1@[k] == cost3(zero@, one@, 3, k as nat),
                    forall|k: int| 0 <= k < 8 ==> #[trigger] d1@[k] <= 765,
                    forall|k: int|
                        0 <= k < 8 ==> #[trigger] d2@[k] == cost3(zero@, one@, 6, k as nat),
                    forall|k: int| 0 <= k < 8 ==> #[trigger] d2@[k] <= 765,
                    costs_match(zero@, run.cost, pos, false, rate as int),
                    costs_match(one@, run.cost, pos, true, rate as int),
                    forall|j: int| rate <= j < 8 ==> #[trigger] zero@[j] == 0,
                    forall|j: int| rate <= j < 8 ==> #[trigger] one@[j] == 0,
                    forall|o: int|
                        0 <= o < 8 * chunk + k ==> #[trigger] out@[o] == run.code.dist(
                            run.cost,
                            t,
                            o as nat,
                        ),
                decreases 8 - k,
            {
                proof {
                    assert(d0@[k as int] <= 765 && d1@[b as int] <= 765 && d2@[c as int] <= 765);
                    let o = (64 * c + 8 * b + k) as nat;
                    lemma_crossed(zero@, one@, c as nat, b as nat, k as nat);
                    lemma_cost_sum(zero@, one@, run.cost, pos, rate as nat, o, 9);
                }
                out[chunk * 8 + k] = d0[k] + d2[c] + d1[b];
                k = k + 1;
            }
            b = b + 1;
        }
        c = c + 1;
    }
}

} // verus!
