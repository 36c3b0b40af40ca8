//! Whether a code withstands one wrong bit in each window of `5 * order * rate`
//! encoded bits.
//!
//! The margin of a difference between two messages is the weight of its encoding
//! less twice the number of windows that it touches. It changes from step to step
//! by what the register and the window say. So the least margin of all
//! differences is found step by step, for each state and for whether the current
//! window is touched; and once a whole window has lowered none of them, none will
//! be lowered any more.

use super::guard::{is_decidable, is_first_touch, touched, touched_before, weight, withstands};
use super::sim::interval_len;
use super::trellis::{
    bit_value, dot, lemma_output_bit, lemma_window_bound, lemma_window_top, window, Trellis,
};
use super::util;
use super::util::lemma_dot_zero;
use super::viterbi::lemma_zero_window;
use crate::search::weight::{output_weight_for_state, state_weight};
use vstd::arithmetic::div_mod::{
    lemma_div_denominator, lemma_fundamental_div_mod, lemma_fundamental_div_mod_converse,
};
use vstd::arithmetic::power2::{lemma_pow2_pos, lemma_pow2_unfold, pow2};
use vstd::prelude::*;

verus! {

/// The weight of a difference, less twice the number of windows it touches.
pub open spec fn margin(code: Trellis, e: Seq<bool>, interval: int) -> int {
    weight(code, e, e.len() * code.rate) - 2 * touched(code, e, interval, e.len() * code.rate)
}

/// The first set bit is in place `r`.
pub open spec fn begins(e: Seq<bool>, r: int) -> bool {
    &&& 0 <= r < e.len()
    &&& e[r]
    &&& forall|i: int| 0 <= i < r ==> !(#[trigger] e[i])
}

/// Some of the first `m` encoded bits, in window `win`, is set.
spec fn touches(code: Trellis, e: Seq<bool>, interval: int, m: int, win: int) -> bool {
    exists|i: int| 0 <= i < m && i / interval == win && #[trigger] code.encoded_bit(e, i)
}

/// Where a difference is after its last bit: its state, and whether the window of
/// the next step is touched.
pub open spec fn node(code: Trellis, e: Seq<bool>, interval: int) -> int {
    2 * code.state(e) + if touched_before(
        code,
        e,
        interval,
        (e.len() * code.rate) as int,
    ) {
        1int
    } else {
        0int
    }
}

/// The register when `bit` follows at a node.
pub open spec fn register_at(i: int, bit: int) -> int {
    2 * (i / 2) + bit
}

/// What a step adds to the margin.
pub open spec fn gain(code: Trellis, i: int, bit: int) -> int {
    let w = state_weight(code.polys, register_at(i, bit), code.rate);
    w - if w > 0 && i % 2 == 0 {
        2int
    } else {
        0int
    }
}

/// The node that a step leads to; `fresh` where another window begins.
pub open spec fn successor(code: Trellis, i: int, bit: int, fresh: bool) -> int {
    let w = state_weight(code.polys, register_at(i, bit), code.rate);
    2 * (register_at(i, bit) % (code.num_states() as int)) + if !fresh && (w > 0 || i % 2 == 1) {
        1int
    } else {
        0int
    }
}

/// Encoded bit `i` lies in the window that its step lies in.
proof fn lemma_window_of(i: int, rate: int, span: int)
    requires
        i >= 0,
        rate > 0,
        span > 0,
    ensures
        i / (span * rate) == (i / rate) / span,
{
    lemma_div_denominator(i, rate, span);
    assert(rate * span == span * rate) by (nonlinear_arith);
}

/// What one more bit does to the encoding.
proof fn lemma_pushed(code: Trellis, e: Seq<bool>, b: bool)
    requires
        code.valid(),
    ensures
        ({
            let reg = 2 * code.state(e) + bit_value(b);
            let k = e.len() * code.rate;
            &&& 0 <= code.state(e) < code.num_states()
            &&& code.state(e.push(b)) == reg % (code.num_states() as int)
            &&& forall|i: int|
                0 <= i < k ==> #[trigger] code.encoded_bit(e.push(b), i) == code.encoded_bit(e, i)
            &&& forall|j: int|
                0 <= j < code.rate ==> code.encoded_bit(e.push(b), k + j) == dot(
                    reg as nat,
                    #[trigger] code.polys[j] as nat,
                )
        }),
{
    let x = e.push(b);
    let reg = 2 * code.state(e) + bit_value(b);
    let rate = code.rate as int;
    let h = (code.order - 1) as nat;
    assert(x.drop_last() =~= e);
    assert(window(x, code.order) == reg);
    lemma_window_bound(e, h);
    lemma_window_bound(x, h);
    lemma_window_top(x, h);
    lemma_pow2_pos(h);
    let top = bit_value(x.len() > h && x[x.len() - 1 - h]);
    assert(pow2(h) * top == top * pow2(h)) by (nonlinear_arith);
    lemma_fundamental_div_mod_converse(reg, pow2(h) as int, top, window(x, h));
    assert forall|i: int| 0 <= i < e.len() * code.rate implies #[trigger] code.encoded_bit(x, i)
        == code.encoded_bit(e, i) by {
        lemma_fundamental_div_mod(i, rate);
        let t = i / rate;
        assert(0 <= t < e.len()) by (nonlinear_arith)
            requires
                i == rate * t + i % rate,
                0 <= i % rate < rate,
                0 <= i < e.len() * rate,
        ;
        assert(x.take(t + 1) =~= e.take(t + 1));
    }
    assert forall|j: int| 0 <= j < code.rate implies code.encoded_bit(x, e.len() * code.rate + j)
        == dot(reg as nat, #[trigger] code.polys[j] as nat) by {
        code.lemma_encoded_index(x, e.len() as int, j);
        assert(x.take((e.len() + 1) as int) =~= x);
        lemma_output_bit(code.polys, reg as nat, code.rate, j as nat);
    }
}

/// Encodings that agree so far weigh the same and touch the same windows.
proof fn lemma_same_prefix(code: Trellis, x: Seq<bool>, e: Seq<bool>, interval: int, n: nat)
    requires
        forall|i: int| 0 <= i < n ==> #[trigger] code.encoded_bit(x, i) == code.encoded_bit(e, i),
    ensures
        weight(code, x, n) == weight(code, e, n),
        touched(code, x, interval, n) == touched(code, e, interval, n),
    decreases n,
{
    if n > 0 {
        lemma_same_prefix(code, x, e, interval, (n - 1) as nat);
        assert(code.encoded_bit(x, n - 1) == code.encoded_bit(e, n - 1));
        let k = n - 1;
        if is_first_touch(code, e, interval, k) {
            assert forall|j: int| 0 <= j < k && j / interval == k / interval implies !(
            #[trigger] code.encoded_bit(x, j)) by {
                assert(!code.encoded_bit(e, j));
            }
        }
        if is_first_touch(code, x, interval, k) {
            assert forall|j: int| 0 <= j < k && j / interval == k / interval implies !(
            #[trigger] code.encoded_bit(e, j)) by {
                assert(!code.encoded_bit(x, j));
            }
        }
    }
}

/// The bits of one step, one by one.
proof fn lemma_step_bits(code: Trellis, e: Seq<bool>, b: bool, span: int, j: nat)
    requires
        code.valid(),
        span > 0,
        j <= code.rate,
    ensures
        ({
            let x = e.push(b);
            let reg = 2 * code.state(e) + bit_value(b);
            let k = e.len() * code.rate;
            let interval = span * code.rate;
            let w = state_weight(code.polys, reg, j);
            let flag = touched_before(code, e, interval, k as int);
            &&& weight(code, x, k + j) == weight(code, e, k) + w
            &&& touched(code, x, interval, k + j) == touched(code, e, interval, k) + (if w > 0
                && !flag {
                1nat
            } else {
                0nat
            })
            &&& touches(code, x, interval, (k + j) as int, e.len() as int / span) == (flag || w > 0)
        }),
    decreases j,
{
    let x = e.push(b);
    let rate = code.rate as int;
    let k = e.len() * code.rate;
    let interval = span * code.rate;
    let win = e.len() as int / span;
    lemma_pushed(code, e, b);
    lemma_same_prefix(code, x, e, interval, k);
    lemma_fundamental_div_mod_converse(k as int, rate, e.len() as int, 0);
    lemma_window_of(k as int, rate, span);
    if j == 0 {
        if touches(code, x, interval, k as int, win) {
            let i = choose|i: int|
                0 <= i < k && i / interval == win && #[trigger] code.encoded_bit(x, i);
            assert(code.encoded_bit(e, i));
        }
        if touched_before(code, e, interval, k as int) {
            let i = choose|i: int|
                0 <= i < k && i / interval == k as int / interval && #[trigger] code.encoded_bit(
                    e,
                    i,
                );
            assert(code.encoded_bit(x, i));
        }
    } else {
        let m = (j - 1) as nat;
        let at = k + m;
        lemma_step_bits(code, e, b, span, m);
        assert(code.encoded_bit(x, at as int) == dot(
            (2 * code.state(e) + bit_value(b)) as nat,
            code.polys[m as int] as nat,
        ));
        lemma_fundamental_div_mod_converse(at as int, rate, e.len() as int, m as int);
        lemma_window_of(at as int, rate, span);
        assert(at as int / interval == win);
        assert(is_first_touch(code, x, interval, at as int) == (code.encoded_bit(x, at as int)
            && !touches(code, x, interval, at as int, win)));
        let before = touches(code, x, interval, at as int, win);
        if code.encoded_bit(x, at as int) {
            assert(touches(code, x, interval, (at + 1) as int, win));
        } else if before {
            let i = choose|i: int|
                0 <= i < at && i / interval == win && #[trigger] code.encoded_bit(x, i);
            assert(0 <= i < at + 1 && code.encoded_bit(x, i));
        } else {
            assert(!touches(code, x, interval, (at + 1) as int, win)) by {
                if touches(code, x, interval, (at + 1) as int, win) {
                    let i = choose|i: int|
                        0 <= i < at + 1 && i / interval == win && #[trigger] code.encoded_bit(x, i);
                    assert(i < at);
                }
            }
        }
    }
}

/// A step changes the margin and the node by what the node says alone.
proof fn lemma_step(code: Trellis, e: Seq<bool>, b: bool, span: int)
    requires
        code.valid(),
        span > 0,
    ensures
        ({
            let interval = span * code.rate;
            let i = node(code, e, interval);
            let fresh = (e.len() + 1) as int % span == 0;
            &&& 0 <= i < 2 * code.num_states()
            &&& register_at(i, bit_value(b)) == 2 * code.state(e) + bit_value(b)
            &&& margin(code, e.push(b), interval) == margin(code, e, interval) + gain(
                code,
                i,
                bit_value(b),
            )
            &&& node(code, e.push(b), interval) == successor(code, i, bit_value(b), fresh)
        }),
{
    let x = e.push(b);
    let rate = code.rate as int;
    let k = e.len() * code.rate;
    let interval = span * code.rate;
    let i = node(code, e, interval);
    lemma_pushed(code, e, b);
    lemma_step_bits(code, e, b, span, code.rate);
    assert((e.len() + 1) * code.rate == k + code.rate) by (nonlinear_arith)
        requires
            k == e.len() * code.rate,
    ;
    assert(x.len() * code.rate == k + code.rate);
    assert(i / 2 == code.state(e));
    let next = (k + code.rate) as int;
    let t = (e.len() + 1) as int;
    assert(next == t * rate);
    lemma_fundamental_div_mod_converse(next, rate, t, 0);
    lemma_window_of(next, rate, span);
    lemma_fundamental_div_mod(t, span);
    lemma_fundamental_div_mod(e.len() as int, span);
    if t % span == 0 {
        assert(e.len() as int / span < t / span) by (nonlinear_arith)
            requires
                t == e.len() + 1,
                t == span * (t / span),
                e.len() == span * (e.len() as int / span) + e.len() as int % span,
                e.len() as int % span >= 0,
                span > 0,
        ;
        if touched_before(code, x, interval, next) {
            let q = choose|q: int|
                0 <= q < next && q / interval == next / interval && #[trigger] code.encoded_bit(
                    x,
                    q,
                );
            lemma_window_of(q, rate, span);
            lemma_fundamental_div_mod(q, rate);
            assert(q / rate <= e.len()) by (nonlinear_arith)
                requires
                    q == rate * (q / rate) + q % rate,
                    q % rate >= 0,
                    q < t * rate,
                    t == e.len() + 1,
                    rate > 0,
            ;
            vstd::arithmetic::div_mod::lemma_div_is_ordered(q / rate, e.len() as int, span);
        }
    } else {
        vstd::arithmetic::div_mod::lemma_mod_bound(t, span);
        assert(span * (t / span) == (t / span) * span) by (nonlinear_arith);
        lemma_fundamental_div_mod_converse(
            e.len() as int,
            span,
            t / span,
            t % span - 1,
        );
        assert(next / interval == e.len() as int / span);
        assert(touched_before(code, x, interval, next) == touches(
            code,
            x,
            interval,
            next,
            e.len() as int / span,
        ));
    }
}

/// Nothing has happened before the first set bit.
proof fn lemma_silence(code: Trellis, e: Seq<bool>, span: int)
    requires
        code.valid(),
        span > 0,
        forall|i: int| 0 <= i < e.len() ==> !(#[trigger] e[i]),
    ensures
        node(code, e, span * code.rate) == 0,
        margin(code, e, span * code.rate) == 0,
    decreases e.len(),
{
    let interval = span * code.rate;
    lemma_zero_window(e, (code.order - 1) as nat);
    if e.len() > 0 {
        let y = e.drop_last();
        assert forall|i: int| 0 <= i < y.len() implies !(#[trigger] y[i]) by {
            assert(!e[i]);
        }
        lemma_silence(code, y, span);
        lemma_step(code, y, false, span);
        assert(!e[e.len() - 1]);
        assert(y.push(false) =~= e);
        lemma_zero_register(code.polys, code.rate);
        lemma_pow2_pos((code.order - 1) as nat);
        vstd::arithmetic::div_mod::lemma_small_mod(0, code.num_states());
    } else {
        assert(e.len() * code.rate == 0) by (nonlinear_arith)
            requires
                e.len() == 0,
        ;
    }
}

proof fn lemma_zero_register(polys: Seq<u16>, n: nat)
    ensures
        state_weight(polys, 0, n) == 0,
    decreases n,
{
    if n > 0 {
        lemma_zero_register(polys, (n - 1) as nat);
        lemma_dot_zero(polys[n - 1] as nat);
    }
}

/// Stands for no margin at all, above every margin.
pub const UNREACHED: i32 = 0x4000_0000;

/// The entries are no more than the margins of all differences that begin in this
/// phase of a window and have gone on for `k` steps.
pub open spec fn is_floor(
    code: Trellis,
    span: int,
    phase: int,
    k: int,
    table: Seq<i32>,
) -> bool {
    forall|e: Seq<bool>, r: int|
        #![trigger begins(e, r)]
        begins(e, r) && r % span == phase && e.len() == r + k ==> {
            let i = node(code, e, span * code.rate);
            table[i] < UNREACHED && table[i] <= margin(code, e, span * code.rate)
        }
}

/// A difference that has this node and this margin.
pub open spec fn has_margin(
    code: Trellis,
    span: int,
    phase: int,
    k: int,
    i: int,
    m: int,
    e: Seq<bool>,
) -> bool {
    &&& begins(e, phase)
    &&& e.len() == phase + k
    &&& node(code, e, span * code.rate) == i
    &&& margin(code, e, span * code.rate) == m
}

/// Every entry is the margin of such a difference.
pub open spec fn is_attained(
    code: Trellis,
    span: int,
    phase: int,
    k: int,
    table: Seq<i32>,
) -> bool {
    forall|i: int|
        0 <= i < table.len() && #[trigger] table[i] < UNREACHED ==> exists|e: Seq<bool>| #[trigger]
            has_margin(code, span, phase, k, i, table[i] as int, e)
}

/// A step from `i` to `j` that makes the margin `m`.
spec fn is_source(
    code: Trellis,
    table: Seq<i32>,
    fresh: bool,
    j: int,
    m: int,
    i: int,
    bit: int,
) -> bool {
    &&& 0 <= i < table.len()
    &&& 0 <= bit < 2
    &&& table[i] < UNREACHED
    &&& successor(code, i, bit, fresh) == j
    &&& m == table[i] + gain(code, i, bit)
}

/// Where step `bit` from `i` leads, the entry is no more than what it makes.
spec fn is_offered(
    code: Trellis,
    table: Seq<i32>,
    next: Seq<i32>,
    fresh: bool,
    i: int,
    bit: int,
) -> bool {
    table[i] < UNREACHED ==> {
        let j = successor(code, i, bit, fresh);
        next[j] < UNREACHED && next[j] <= table[i] + gain(code, i, bit)
    }
}

/// Every entry comes from some step.
spec fn is_sourced(code: Trellis, table: Seq<i32>, next: Seq<i32>, fresh: bool) -> bool {
    forall|j: int|
        0 <= j < next.len() && #[trigger] next[j] < UNREACHED ==> exists|i: int, bit: int|
            #[trigger] is_source(code, table, fresh, j, next[j] as int, i, bit)
}

/// The least margins one step later.
spec fn is_step(code: Trellis, table: Seq<i32>, next: Seq<i32>, fresh: bool) -> bool {
    &&& next.len() == table.len()
    &&& forall|i: int, bit: int|
        0 <= i < table.len() && 0 <= bit < 2 ==> #[trigger] is_offered(
            code,
            table,
            next,
            fresh,
            i,
            bit,
        )
    &&& is_sourced(code, table, next, fresh)
}

/// The margins that `k` steps can make.
spec fn in_range(table: Seq<i32>, k: int) -> bool {
    forall|i: int|
        0 <= i < table.len() ==> #[trigger] table[i] == UNREACHED || -2 * k <= table[i] <= 8 * k
}

/// Every difference that has to be decided on has a margin.
spec fn passes(table: Seq<i32>, decided: bool) -> bool {
    forall|i: int|
        0 <= i < table.len() && (decided || i < 2) && #[trigger] table[i] < UNREACHED ==> table[i]
            > 0
}

/// The weight of every register's output.
spec fn is_weights(code: Trellis, weights: Seq<u32>) -> bool {
    &&& weights.len() == 2 * code.num_states()
    &&& forall|r: int|
        0 <= r < weights.len() ==> #[trigger] weights[r] == state_weight(code.polys, r, code.rate)
    &&& forall|r: int| 0 <= r < weights.len() ==> #[trigger] weights[r] <= 8
}

/// The phase of a window is that of the step where the difference began, and the
/// steps since.
proof fn lemma_phase(r: int, k: int, span: int)
    requires
        span > 0,
    ensures
        (r + k) % span == (r % span + k) % span,
{
    vstd::arithmetic::div_mod::lemma_add_mod_noop_right(k, r, span);
}

proof fn lemma_successor_bound(code: Trellis, i: int, bit: int, fresh: bool)
    requires
        code.valid(),
        0 <= i < 2 * code.num_states(),
        0 <= bit < 2,
    ensures
        0 <= successor(code, i, bit, fresh) < 2 * code.num_states(),
        0 <= register_at(i, bit) < 2 * code.num_states(),
{
    let n = code.num_states() as int;
    lemma_pow2_pos((code.order - 1) as nat);
    vstd::arithmetic::div_mod::lemma_mod_bound(register_at(i, bit), n);
}

/// What holds of all differences holds of them one step later.
proof fn lemma_floor_step(
    code: Trellis,
    span: int,
    phase: int,
    k: int,
    table: Seq<i32>,
    next: Seq<i32>,
    fresh: bool,
)
    requires
        code.valid(),
        span > 0,
        k >= 1,
        table.len() == 2 * code.num_states(),
        is_floor(code, span, phase, k, table),
        is_step(code, table, next, fresh),
        fresh == ((phase + k + 1) % span == 0),
    ensures
        is_floor(code, span, phase, k + 1, next),
{
    let interval = span * code.rate;
    assert forall|e: Seq<bool>, r: int|
        #![trigger begins(e, r)]
        begins(e, r) && r % span == phase && e.len() == r + k + 1 implies {
        let i = node(code, e, interval);
        next[i] < UNREACHED && next[i] <= margin(code, e, interval)
    } by {
        let y = e.drop_last();
        let b = e.last();
        assert forall|i: int| 0 <= i < r implies !(#[trigger] y[i]) by {
            assert(!e[i]);
        }
        assert(y[r] == e[r]);
        assert(begins(y, r));
        assert(y.push(b) =~= e);
        lemma_step(code, y, b, span);
        lemma_phase(r, k + 1, span);
        assert(is_offered(code, table, next, fresh, node(code, y, interval), bit_value(b)));
    }
}

proof fn lemma_attained_step(
    code: Trellis,
    span: int,
    phase: int,
    k: int,
    table: Seq<i32>,
    next: Seq<i32>,
    fresh: bool,
)
    requires
        code.valid(),
        span > 0,
        k >= 1,
        0 <= phase,
        is_attained(code, span, phase, k, table),
        is_step(code, table, next, fresh),
        fresh == ((phase + k + 1) % span == 0),
    ensures
        is_attained(code, span, phase, k + 1, next),
{
    let interval = span * code.rate;
    assert forall|j: int| 0 <= j < next.len() && #[trigger] next[j] < UNREACHED implies exists|
        e: Seq<bool>,
    | #[trigger] has_margin(code, span, phase, k + 1, j, next[j] as int, e) by {
        let (i, bit) = choose|i: int, bit: int| #[trigger]
            is_source(code, table, fresh, j, next[j] as int, i, bit);
        let y = choose|y: Seq<bool>| #[trigger]
            has_margin(code, span, phase, k, i, table[i] as int, y);
        let b = bit == 1;
        let e = y.push(b);
        lemma_step(code, y, b, span);
        assert forall|q: int| 0 <= q < phase implies !(#[trigger] e[q]) by {
            assert(!y[q]);
        }
        assert(e[phase] == y[phase]);
        assert(has_margin(code, span, phase, k + 1, j, next[j] as int, e));
    }
}

/// Lowers an entry.
#[inline(always)]
fn offer(next: &mut Vec<i32>, to: usize, value: i32)
    requires
        to < old(next)@.len(),
    ensures
        final(next)@ == old(next)@.update(
            to as int,
            if value < old(next)@[to as int] {
                value
            } else {
                old(next)@[to as int]
            },
        ),
{
    if value < next[to] {
        next[to] = value;
    }
}

/// Offers one step from node `i`.
#[inline(always)]
fn follow(
    table: &Vec<i32>,
    weights: &Vec<u32>,
    fresh: bool,
    i: usize,
    bit: usize,
    next: &mut Vec<i32>,
    Ghost(code): Ghost<Trellis>,
    Ghost(k): Ghost<int>,
)
    requires
        code.valid(),
        is_weights(code, weights@),
        table@.len() == 2 * code.num_states(),
        code.num_states() <= 32768,
        old(next)@.len() == table@.len(),
        i < table@.len(),
        bit < 2,
        0 <= k <= 1_000_000,
        table@[i as int] < UNREACHED,
        in_range(table@, k),
        in_range(old(next)@, k + 1),
        is_sourced(code, table@, old(next)@, fresh),
    ensures
        final(next)@.len() == old(next)@.len(),
        forall|j: int|
            0 <= j < final(next)@.len() && j != successor(code, i as int, bit as int, fresh)
                ==> #[trigger] final(next)@[j] == old(next)@[j],
        in_range(final(next)@, k + 1),
        is_sourced(code, table@, final(next)@, fresh),
        is_offered(code, table@, final(next)@, fresh, i as int, bit as int),
        forall|q: int, c: int|
            0 <= q < table@.len() && 0 <= c < 2 && is_offered(
                code,
                table@,
                old(next)@,
                fresh,
                q,
                c,
            ) ==> #[trigger] is_offered(code, table@, final(next)@, fresh, q, c),
{
    let states: usize = table.len() / 2;
    let ghost before = next@;
    proof {
        lemma_successor_bound(code, i as int, bit as int, fresh);
        lemma_pow2_pos((code.order - 1) as nat);
    }
    let register: usize = 2 * (i / 2) + bit;
    let weight: u32 = weights[register];
    let open: bool = i % 2 == 0;
    let paid: i32 = if weight > 0 && open {
        2
    } else {
        0
    };
    let flag: usize = if !fresh && (weight > 0 || !open) {
        1
    } else {
        0
    };
    let to: usize = 2 * (register % states) + flag;
    assert(table@[i as int] == UNREACHED || -2 * k <= table@[i as int] <= 8 * k);
    let value: i32 = table[i] + weight as i32 - paid;
    assert(to == successor(code, i as int, bit as int, fresh));
    assert(value == table@[i as int] + gain(code, i as int, bit as int));
    offer(next, to, value);
    proof {
        let after = next@;
        assert forall|j: int| 0 <= j < after.len() implies #[trigger] after[j] <= before[j] by {}
        assert forall|j: int| 0 <= j < after.len() && #[trigger] after[j] < UNREACHED implies exists|
            q: int,
            c: int,
        | #[trigger] is_source(code, table@, fresh, j, after[j] as int, q, c) by {
            if j == to && value < before[to as int] {
                assert(is_source(
                    code,
                    table@,
                    fresh,
                    j,
                    after[j] as int,
                    i as int,
                    bit as int,
                ));
            } else {
                assert(after[j] == before[j]);
            }
        }
        assert forall|j: int| 0 <= j < after.len() implies #[trigger] after[j] == UNREACHED || -2
            * (k + 1) <= after[j] <= 8 * (k + 1) by {
            assert(before[j] == UNREACHED || -2 * (k + 1) <= before[j] <= 8 * (k + 1));
        }
        assert forall|q: int, c: int|
            0 <= q < table@.len() && 0 <= c < 2 && is_offered(
                code,
                table@,
                before,
                fresh,
                q,
                c,
            ) implies #[trigger] is_offered(code, table@, after, fresh, q, c) by {
            lemma_successor_bound(code, q, c, fresh);
        }
        assert(after[to as int] <= value);
        assert(before[to as int] <= UNREACHED);
    }
}

/// The least margins one step later.
fn step(
    table: &Vec<i32>,
    weights: &Vec<u32>,
    fresh: bool,
    Ghost(code): Ghost<Trellis>,
    Ghost(k): Ghost<int>,
) -> (next: Vec<i32>)
    requires
        code.valid(),
        is_weights(code, weights@),
        table@.len() == 2 * code.num_states(),
        code.num_states() <= 32768,
        0 <= k <= 1_000_000,
        in_range(table@, k),
    ensures
        is_step(code, table@, next@, fresh),
        in_range(next@, k + 1),
{
    let mut next: Vec<i32> = vec![UNREACHED; table.len()];
    let mut i: usize = 0;
    while i < table.len()
        invariant
            i <= table@.len(),
            code.valid(),
            is_weights(code, weights@),
            table@.len() == 2 * code.num_states(),
            code.num_states() <= 32768,
            0 <= k <= 1_000_000,
            in_range(table@, k),
            next@.len() == table@.len(),
            in_range(next@, k + 1),
            is_sourced(code, table@, next@, fresh),
            forall|q: int, c: int|
                0 <= q < i && 0 <= c < 2 ==> #[trigger] is_offered(
                    code,
                    table@,
                    next@,
                    fresh,
                    q,
                    c,
                ),
        decreases table@.len() - i,
    {
        if table[i] < UNREACHED {
            follow(table, weights, fresh, i, 0, &mut next, Ghost(code), Ghost(k));
            let ghost half = next@;
            follow(table, weights, fresh, i, 1, &mut next, Ghost(code), Ghost(k));
            assert(is_offered(code, table@, half, fresh, i as int, 0));
            assert(is_offered(code, table@, next@, fresh, i as int, 0));
        }
        i = i + 1;
    }
    next
}

/// The margins where the first bit is set in the step before.
fn first_step(
    weights: &Vec<u32>,
    fresh: bool,
    Ghost(code): Ghost<Trellis>,
    Ghost(span): Ghost<int>,
    Ghost(phase): Ghost<int>,
) -> (table: Vec<i32>)
    requires
        code.valid(),
        is_weights(code, weights@),
        code.num_states() <= 32768,
        0 <= phase < span,
        fresh == ((phase + 1) % span == 0),
    ensures
        table@.len() == weights@.len(),
        in_range(table@, 1),
        is_floor(code, span, phase, 1, table@),
        is_attained(code, span, phase, 1, table@),
{
    let mut silent: Vec<i32> = vec![UNREACHED; weights.len()];
    let mut table: Vec<i32> = vec![UNREACHED; weights.len()];
    proof {
        lemma_pow2_pos((code.order - 1) as nat);
    }
    silent[0] = 0;
    follow(&silent, weights, fresh, 0, 1, &mut table, Ghost(code), Ghost(0));
    proof {
        let interval = span * code.rate;
        assert forall|e: Seq<bool>, r: int|
            #![trigger begins(e, r)]
            begins(e, r) && r % span == phase && e.len() == r + 1 implies {
            let i = node(code, e, interval);
            table@[i] < UNREACHED && table@[i] <= margin(code, e, interval)
        } by {
            let y = e.drop_last();
            assert forall|i: int| 0 <= i < y.len() implies !(#[trigger] y[i]) by {
                assert(!e[i]);
            }
            lemma_silence(code, y, span);
            lemma_step(code, y, true, span);
            assert(y.push(true) =~= e);
            lemma_phase(r, 1, span);
            assert(is_offered(code, silent@, table@, fresh, 0, 1));
        }
        assert forall|j: int| 0 <= j < table@.len() && #[trigger] table@[j] < UNREACHED implies exists|
            e: Seq<bool>,
        | #[trigger] has_margin(code, span, phase, 1, j, table@[j] as int, e) by {
            assert(j == successor(code, 0, 1, fresh));
            let (i, bit) = choose|i: int, bit: int| #[trigger]
                is_source(code, silent@, fresh, j, table@[j] as int, i, bit);
            assert(i == 0);
            lemma_pow2_unfold((code.order - 1) as nat);
            lemma_pow2_pos((code.order - 2) as nat);
            vstd::arithmetic::div_mod::lemma_small_mod(0, code.num_states());
            vstd::arithmetic::div_mod::lemma_small_mod(1, code.num_states());
            assert(bit == 1);
            let y = Seq::new(phase as nat, |q: int| false);
            lemma_silence(code, y, span);
            lemma_step(code, y, true, span);
            let e = y.push(true);
            assert(begins(e, phase));
            assert(has_margin(code, span, phase, 1, j, table@[j] as int, e));
        }
    }
    table
}

/// A difference that has to be decided on: it has gone on for six times the
/// constraint length, or has come to an end.
pub open spec fn is_due(code: Trellis, e: Seq<bool>, r: int) -> bool {
    &&& begins(e, r)
    &&& e.len() - r >= 6 * code.order || code.state(e) == 0
}

/// All that begin in this phase of a window and have gone on for `k` steps have a
/// margin.
pub open spec fn is_safe(code: Trellis, span: int, phase: int, k: int) -> bool {
    forall|e: Seq<bool>, r: int| #[trigger]
        is_due(code, e, r) && r % span == phase && e.len() == r + k ==> margin(
            code,
            e,
            span * code.rate,
        ) > 0
}

proof fn lemma_safe(code: Trellis, span: int, phase: int, k: int, table: Seq<i32>)
    requires
        code.valid(),
        span > 0,
        table.len() == 2 * code.num_states(),
        is_floor(code, span, phase, k, table),
        passes(table, k >= 6 * code.order),
    ensures
        is_safe(code, span, phase, k),
{
    assert forall|e: Seq<bool>, r: int| #[trigger]
        is_due(code, e, r) && r % span == phase && e.len() == r + k implies margin(
        code,
        e,
        span * code.rate,
    ) > 0 by {
        assert(begins(e, r));
        lemma_step(code, e, false, span);
        let i = node(code, e, span * code.rate);
        assert(table[i] < UNREACHED);
    }
}

/// The tables of the first steps, in order.
spec fn are_steps(code: Trellis, span: int, phase: int, tables: Seq<Vec<i32>>) -> bool {
    &&& forall|a: int|
        0 <= a < tables.len() ==> (#[trigger] tables[a])@.len() == 2 * code.num_states()
    &&& forall|a: int|
        1 <= a < tables.len() ==> is_step(
            code,
            tables[a - 1]@,
            (#[trigger] tables[a])@,
            (phase + a + 1) % span == 0,
        )
    &&& tables.len() > 0 ==> is_floor(code, span, phase, 1, tables[0]@)
}

/// The table of step `k`, where the last table is no lower than the one a window
/// before: from there on they repeat.
proof fn lemma_repeats(code: Trellis, span: int, phase: int, tables: Seq<Vec<i32>>, k: int) -> (a:
    int)
    requires
        code.valid(),
        span > 0,
        are_steps(code, span, phase, tables),
        tables.len() > span,
        forall|i: int|
            0 <= i < 2 * code.num_states() ==> #[trigger] tables.last()@[i] >= tables[tables.len()
                - 1 - span]@[i],
        k >= 1,
    ensures
        1 <= a < tables.len(),
        (k - a) % span == 0,
        k < tables.len() ==> a == k,
        k >= tables.len() ==> a >= tables.len() - span,
        is_floor(code, span, phase, k, tables[a - 1]@),
    decreases k,
{
    let stop = tables.len() as int;
    if k == 1 {
        vstd::arithmetic::div_mod::lemma_small_mod(0, span as nat);
        1
    } else {
        let c = lemma_repeats(code, span, phase, tables, k - 1);
        let fresh = (phase + c + 1) % span == 0;
        assert(fresh == ((phase + (k - 1) + 1) % span == 0)) by {
            lemma_phase(k - 1 - c, phase + c + 1, span);
            assert((k - 1 - c) + (phase + c + 1) == phase + (k - 1) + 1);
        }
        assert(is_step(code, tables[c - 1]@, tables[c]@, fresh));
        lemma_floor_step(
            code,
            span,
            phase,
            k - 1,
            tables[c - 1]@,
            tables[c]@,
            fresh,
        );
        if c + 1 < stop {
            c + 1
        } else {
            let a = stop - span;
            assert forall|e: Seq<bool>, r: int|
                #![trigger begins(e, r)]
                begins(e, r) && r % span == phase && e.len() == r + k implies {
                let i = node(code, e, span * code.rate);
                tables[a - 1]@[i] < UNREACHED && tables[a - 1]@[i] <= margin(
                    code,
                    e,
                    span * code.rate,
                )
            } by {
                let i = node(code, e, span * code.rate);
                lemma_step(code, e, false, span);
                assert(tables.last()@[i] >= tables[a - 1]@[i]);
            }
            lemma_phase(k - 1 - c, span, span);
            vstd::arithmetic::div_mod::lemma_mod_self_0(span);
            assert(k - a == (k - 1 - c) + span);
            a
        }
    }
}

/// Whether the differences that begin in this phase of a window have a margin.
fn check_phase(
    weights: &Vec<u32>,
    order: u32,
    phase: usize,
    limit: usize,
    Ghost(code): Ghost<Trellis>,
) -> (res: Option<bool>)
    requires
        code.valid(),
        code.order == order,
        is_weights(code, weights@),
        code.num_states() <= 32768,
        phase < 5 * order,
        limit <= 1_000_000,
    ensures
        res == Some(true) ==> forall|k: int|
            k >= 1 ==> #[trigger] is_safe(code, 5 * code.order as int, phase as int, k),
        res == Some(false) ==> !withstands(code, 5 * code.order * code.rate as int),
        res is None ==> forall|k: int|
            1 <= k < limit ==> #[trigger] is_safe(code, 5 * code.order as int, phase as int, k),
{
    let span: usize = 5 * order as usize;
    let due: usize = 6 * order as usize;
    let ghost sp = span as int;
    let ghost ph = phase as int;
    let first: Vec<i32> = first_step(
        weights,
        (phase + 1) % span == 0,
        Ghost(code),
        Ghost(sp),
        Ghost(ph),
    );
    let mut tables: Vec<Vec<i32>> = Vec::new();
    tables.push(first);
    let mut k: usize = 1;
    while k < limit
        invariant
            1 <= k,
            k <= limit || k == 1,
            limit <= 1_000_000,
            code.valid(),
            code.order == order,
            span == 5 * order,
            due == 6 * order,
            sp == span,
            ph == phase,
            phase < span,
            is_weights(code, weights@),
            code.num_states() <= 32768,
            tables@.len() == k,
            are_steps(code, sp, ph, tables@),
            in_range(tables@[k - 1]@, k as int),
            is_floor(code, sp, ph, k as int, tables@[k - 1]@),
            is_attained(code, sp, ph, k as int, tables@[k - 1]@),
            forall|a: int|
                1 <= a < k ==> passes((#[trigger] tables@[a - 1])@, a >= 6 * code.order),
            forall|a: int| 1 <= a < k ==> #[trigger] is_safe(code, sp, ph, a),
        decreases limit - k,
    {
        let table: &Vec<i32> = &tables[k - 1];
        proof {
            lemma_pow2_pos((code.order - 1) as nat);
        }
        if !has_margins(table, k >= due) {
            proof {
                let i = choose|i: int|
                    0 <= i < table@.len() && (k >= due || i < 2) && #[trigger] table@[i]
                        < UNREACHED && table@[i] <= 0;
                let e = choose|e: Seq<bool>| #[trigger]
                    has_margin(code, sp, ph, k as int, i, table@[i] as int, e);
                assert(is_decidable(code, e, ph));
            }
            return Some(false);
        }
        proof {
            lemma_safe(code, sp, ph, k as int, table@);
        }
        if k >= due + span && is_no_lower(table, &tables[k - 1 - span]) {
            proof {
                assert forall|n: int| n >= 1 implies #[trigger] is_safe(code, sp, ph, n) by {
                    let a = lemma_repeats(code, sp, ph, tables@, n);
                    assert(a >= 1 && passes(tables@[a - 1]@, a >= 6 * code.order));
                    lemma_safe(code, sp, ph, n, tables@[a - 1]@);
                }
            }
            return Some(true);
        }
        let fresh: bool = (phase + k + 1) % span == 0;
        let next: Vec<i32> = step(table, weights, fresh, Ghost(code), Ghost(k as int));
        proof {
            lemma_floor_step(code, sp, ph, k as int, table@, next@, fresh);
            lemma_attained_step(code, sp, ph, k as int, table@, next@, fresh);
        }
        let ghost old_tables = tables@;
        tables.push(next);
        assert forall|a: int| 1 <= a < tables@.len() implies is_step(
            code,
            tables@[a - 1]@,
            (#[trigger] tables@[a])@,
            (ph + a + 1) % sp == 0,
        ) by {
            if a < k {
                assert(is_step(code, old_tables[a - 1]@, old_tables[a]@, (ph + a + 1) % sp == 0));
            }
        }
        k = k + 1;
    }
    None
}

/// Whether every difference that has to be decided on has a margin.
fn has_margins(table: &Vec<i32>, decided: bool) -> (all: bool)
    requires
        table@.len() >= 2,
    ensures
        all == passes(table@, decided),
{
    let end: usize = if decided {
        table.len()
    } else {
        2
    };
    let mut i: usize = 0;
    while i < end
        invariant
            i <= end <= table@.len(),
            end == if decided {
                table@.len() as int
            } else {
                2
            },
            forall|j: int| 0 <= j < i && #[trigger] table@[j] < UNREACHED ==> table@[j] > 0,
        decreases end - i,
    {
        if table[i] <= 0 {
            assert(table@[i as int] < UNREACHED);
            return false;
        }
        i = i + 1;
    }
    true
}

/// Whether no entry is lower than it was.
fn is_no_lower(table: &Vec<i32>, earlier: &Vec<i32>) -> (all: bool)
    requires
        table@.len() == earlier@.len(),
    ensures
        all == forall|i: int| 0 <= i < table@.len() ==> #[trigger] table@[i] >= earlier@[i],
{
    let mut i: usize = 0;
    while i < table.len()
        invariant
            i <= table@.len(),
            table@.len() == earlier@.len(),
            forall|j: int| 0 <= j < i ==> #[trigger] table@[j] >= earlier@[j],
        decreases table@.len() - i,
    {
        if table[i] < earlier[i] {
            return false;
        }
        i = i + 1;
    }
    true
}

/// The first set bit.
proof fn lemma_begins(e: Seq<bool>, r: int) -> (first: int)
    requires
        0 <= r < e.len(),
        e[r],
    ensures
        begins(e, first),
        first <= r,
    decreases r,
{
    if forall|i: int| 0 <= i < r ==> !(#[trigger] e[i]) {
        r
    } else {
        let i = choose|i: int| 0 <= i < r && #[trigger] e[i];
        lemma_begins(e, i)
    }
}

/// Decides whether a code withstands one wrong bit in each window of `5 * order *
/// rate` encoded bits, by following the differences between messages for less
/// than `limit` steps. Returns `None` where that is not enough; then none of them
/// that has to be decided on before has too little weight.
pub fn withstands_interval(rate: u32, order: u32, polys: &[u16], limit: usize) -> (res: Option<
    bool,
>)
    requires
        1 <= rate <= 8,
        2 <= order <= 16,
        polys@.len() == rate,
        limit <= 1_000_000,
    ensures
        ({
            let code = Trellis { rate: rate as nat, order: order as nat, polys: polys@ };
            let interval = interval_len(rate as int, order as int);
            &&& res matches Some(ok) ==> ok == withstands(code, interval)
            &&& res is None ==> forall|e: Seq<bool>, r: int| #[trigger]
                is_due(code, e, r) && e.len() - r < limit ==> margin(code, e, interval) > 0
        }),
{
    let ghost code = Trellis { rate: rate as nat, order: order as nat, polys: polys@ };
    let ghost sp = 5 * order as int;
    proof {
        util::lemma_pow2_16(order as nat);
        lemma_pow2_unfold(order as nat);
        assert(5 * order * rate == sp * rate);
    }
    let registers: u32 = util::num_states_for_order(order);
    let mut weights: Vec<u32> = Vec::with_capacity(registers as usize);
    let mut r: u32 = 0;
    while r < registers
        invariant
            r <= registers <= 65536,
            rate <= 8,
            polys@.len() == rate,
            weights@.len() == r,
            forall|q: int|
                0 <= q < r ==> #[trigger] weights@[q] == state_weight(polys@, q, rate as nat),
            forall|q: int| 0 <= q < r ==> #[trigger] weights@[q] <= 8,
        decreases registers - r,
    {
        weights.push(output_weight_for_state(r, rate, polys));
        r = r + 1;
    }
    let span: usize = 5 * order as usize;
    let mut known: bool = true;
    let mut phase: usize = 0;
    while phase < span
        invariant
            phase <= span,
            span == 5 * order,
            sp == span,
            2 <= order <= 16,
            limit <= 1_000_000,
            code == (Trellis { rate: rate as nat, order: order as nat, polys: polys@ }),
            code.valid(),
            is_weights(code, weights@),
            code.num_states() <= 32768,
            known ==> forall|p: int, k: int|
                0 <= p < phase && k >= 1 ==> #[trigger] is_safe(code, sp, p, k),
            forall|p: int, k: int|
                0 <= p < phase && 1 <= k < limit ==> #[trigger] is_safe(code, sp, p, k),
        decreases span - phase,
    {
        match check_phase(&weights, order, phase, limit, Ghost(code)) {
            Some(ok) => {
                if !ok {
                    return Some(false);
                }
            },
            None => {
                known = false;
            },
        }
        phase = phase + 1;
    }
    proof {
        let interval = sp * code.rate;
        assert forall|e: Seq<bool>, r: int| #[trigger]
            is_due(code, e, r) && (known || e.len() - r < limit) implies margin(code, e, interval)
            > 0 by {
            vstd::arithmetic::div_mod::lemma_mod_bound(r, sp);
            assert(is_safe(code, sp, r % sp, e.len() - r));
        }
        if known {
            assert forall|e: Seq<bool>, r: int| #[trigger]
                is_decidable(code, e, r) implies weight(code, e, e.len() * code.rate) > 2
                * touched(code, e, interval, e.len() * code.rate) by {
                let first = lemma_begins(e, r);
                assert(is_due(code, e, first));
                assert(margin(code, e, interval) > 0);
            }
        }
    }
    if known {
        Some(true)
    } else {
        None
    }
}

} // verus!
