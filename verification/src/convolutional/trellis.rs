//! The mathematical model of a convolutional code and of Viterbi decoding.
//!
//! A message is a sequence of bits. The shift register at step `t` holds the
//! newest `order` of them, newest in the least significant place. The state
//! between two steps is the newest `order - 1` bits. Each step emits one output
//! bit per polynomial: the exclusive-or of the register bits that it taps.
//!
//! What the channel delivered is given as a cost: how badly each value of each
//! encoded bit fits. A path is a message; its cost is the sum over the encoded
//! bits that it would have produced. Viterbi decoding finds, for each state, the
//! cheapest path into it.

use vstd::arithmetic::power2::{lemma_pow2_pos, lemma_pow2_unfold, pow2};
use vstd::prelude::*;

verus! {

/// 1 for a set bit, 0 for a clear one.
pub open spec fn bit_value(b: bool) -> int {
    if b {
        1
    } else {
        0
    }
}

/// Bit `j` of `x`, least significant first.
pub open spec fn nat_bit(x: nat, j: nat) -> bool
    decreases j,
{
    if j == 0 {
        x % 2 == 1
    } else {
        nat_bit(x / 2, (j - 1) as nat)
    }
}

/// The exclusive-or of the bits of `x` in the places where `p` has one.
pub open spec fn dot(x: nat, p: nat) -> bool
    decreases p,
{
    if p == 0 {
        false
    } else {
        (x % 2 == 1 && p % 2 == 1) != dot(x / 2, p / 2)
    }
}

/// The newest `n` bits of a message as a number, newest least significant, with
/// zeros from before the start.
pub open spec fn window(x: Seq<bool>, n: nat) -> int
    decreases n,
{
    if n == 0 || x.len() == 0 {
        0
    } else {
        2 * window(x.drop_last(), (n - 1) as nat) + bit_value(x.last())
    }
}

/// The low bits of the output: bit `j` belongs to polynomial `j`.
pub open spec fn output_upto(polys: Seq<u16>, reg: nat, n: nat) -> nat
    decreases n,
{
    if n == 0 {
        0
    } else if dot(reg, polys[n - 1] as nat) {
        output_upto(polys, reg, (n - 1) as nat) + pow2((n - 1) as nat)
    } else {
        output_upto(polys, reg, (n - 1) as nat)
    }
}

/// The cost of the encoded bits from `base` on, where they are the low `n` bits
/// of `out`.
pub open spec fn dist_upto(cost: spec_fn(int, bool) -> nat, base: int, out: nat, n: nat) -> nat
    decreases n,
{
    if n == 0 {
        0
    } else {
        dist_upto(cost, base, out, (n - 1) as nat) + cost(base + n - 1, nat_bit(out, (n - 1) as nat))
    }
}

/// The parameters of a convolutional code.
pub struct Trellis {
    /// Encoded bits per message bit.
    pub rate: nat,
    /// The constraint length: bits in the shift register.
    pub order: nat,
    /// The generator polynomials, one per encoded bit of a step.
    pub polys: Seq<u16>,
}

/// Every cost is a soft symbol's worth at most.
pub open spec fn bounded_cost(cost: spec_fn(int, bool) -> nat) -> bool {
    forall|k: int, b: bool| #[trigger] cost(k, b) <= 255
}

impl Trellis {
    pub open spec fn valid(self) -> bool {
        &&& 1 <= self.rate <= 8
        &&& 2 <= self.order <= 16
        &&& self.polys.len() == self.rate
    }

    /// The number of states between two steps.
    pub open spec fn num_states(self) -> nat {
        pow2((self.order - 1) as nat)
    }

    /// The output for a full register, one bit per polynomial.
    pub open spec fn output(self, reg: int) -> nat {
        output_upto(self.polys, reg as nat, self.rate)
    }

    /// The state that a message leaves the register in.
    pub open spec fn state(self, x: Seq<bool>) -> int {
        window(x, (self.order - 1) as nat)
    }

    /// The cost of emitting `out` at step `t`.
    pub open spec fn dist(self, cost: spec_fn(int, bool) -> nat, t: int, out: nat) -> nat {
        dist_upto(cost, t * self.rate, out, self.rate)
    }

    /// The largest cost of one step.
    pub open spec fn max_dist(self) -> nat {
        self.rate * 255
    }

    /// The cost of the encoded bits that a message produces.
    pub open spec fn path_cost(self, cost: spec_fn(int, bool) -> nat, x: Seq<bool>) -> nat
        decreases x.len(),
    {
        if x.len() == 0 {
            0
        } else {
            self.path_cost(cost, x.drop_last()) + self.dist(
                cost,
                x.len() - 1,
                self.output(window(x, self.order)),
            )
        }
    }

    /// The state before `s` if the oldest bit of the register was `high`.
    pub open spec fn previous(self, s: int, high: int) -> int {
        s / 2 + high * pow2((self.order - 2) as nat)
    }

    /// The full register at the step into `s`.
    pub open spec fn register(self, s: int, high: int) -> int {
        s + high * pow2((self.order - 1) as nat)
    }

    /// The least cost of a path into `s` after `t` steps.
    pub open spec fn metric(self, cost: spec_fn(int, bool) -> nat, t: nat, s: int) -> nat
        decreases t,
    {
        if t == 0 {
            0
        } else {
            let i = (t - 1) as nat;
            let low = self.dist(cost, i as int, self.output(self.register(s, 0))) + self.metric(
                cost,
                i,
                self.previous(s, 0),
            );
            if i < self.order - 1 {
                low
            } else {
                let high = self.dist(cost, i as int, self.output(self.register(s, 1)))
                    + self.metric(cost, i, self.previous(s, 1));
                if low <= high {
                    low
                } else {
                    high
                }
            }
        }
    }

    /// The cost of going into `s` at step `t` with `high` as the oldest bit.
    pub open spec fn branch(
        self,
        cost: spec_fn(int, bool) -> nat,
        t: nat,
        s: int,
        high: int,
    ) -> nat {
        self.dist(cost, t as int, self.output(self.register(s, high))) + self.metric(
            cost,
            t,
            self.previous(s, high),
        )
    }

    /// The oldest bit of the register on the cheapest way into `s` at step `t`;
    /// 0 where both ways cost the same.
    pub open spec fn choice(self, cost: spec_fn(int, bool) -> nat, t: nat, s: int) -> int {
        if t < self.order - 1 || self.branch(cost, t, s, 0) <= self.branch(cost, t, s, 1) {
            0
        } else {
            1
        }
    }

    /// The path that the choices lead back along from `s` after `t` steps.
    pub open spec fn survivor(self, cost: spec_fn(int, bool) -> nat, t: nat, s: int) -> Seq<bool>
        decreases t,
    {
        if t == 0 {
            seq![]
        } else {
            let i = (t - 1) as nat;
            self.survivor(cost, i, self.previous(s, self.choice(cost, i, s))).push(s % 2 == 1)
        }
    }

    /// The states that the register can be in after `t` steps from zero.
    pub open spec fn live(self, t: nat, s: int) -> bool {
        &&& 0 <= s < self.num_states()
        &&& t < self.order - 1 ==> s < pow2(t)
    }

    /// The first state, among the multiples of `step`, with the least metric
    /// after `t` steps.
    pub open spec fn is_best(
        self,
        cost: spec_fn(int, bool) -> nat,
        t: nat,
        step: int,
        s: int,
    ) -> bool {
        &&& 0 <= s < self.num_states()
        &&& s % step == 0
        &&& forall|r: int|
            0 <= r < self.num_states() && r % step == 0 ==> {
                &&& self.metric(cost, t, s) <= #[trigger] self.metric(cost, t, r)
                &&& r < s ==> self.metric(cost, t, s) < self.metric(cost, t, r)
            }
    }

    /// The message followed by the `order + 1` zeros that flush the register.
    pub open spec fn flushed(self, x: Seq<bool>) -> Seq<bool> {
        x + Seq::new(self.order + 1, |i: int| false)
    }

    /// Encoded bit `k` of an input sequence: at step `k / rate`, the bit of
    /// polynomial `k % rate`.
    pub open spec fn encoded_bit(self, x: Seq<bool>, k: int) -> bool {
        nat_bit(
            self.output(window(x.take(k / (self.rate as int) + 1), self.order)),
            (k % (self.rate as int)) as nat,
        )
    }

    /// Some polynomial taps the register.
    pub open spec fn has_tap(self) -> bool {
        exists|j: int, a: nat|
            0 <= j < self.rate && a < self.order && #[trigger] nat_bit(self.polys[j] as nat, a)
    }

    /// The channel fits the encoded bits of `x` without cost and every other
    /// value at some cost.
    pub open spec fn clean(self, cost: spec_fn(int, bool) -> nat, x: Seq<bool>) -> bool {
        forall|k: int, b: bool|
            0 <= k < x.len() * self.rate ==> (#[trigger] cost(k, b) == 0 <==> b
                == self.encoded_bit(x, k))
    }
}

/// A window holds `n` bits, and no more bits than the message has.
pub proof fn lemma_window_bound(x: Seq<bool>, n: nat)
    ensures
        0 <= window(x, n) < pow2(n),
        x.len() <= n ==> window(x, n) < pow2(x.len()),
    decreases n,
{
    lemma_pow2_pos(n);
    lemma_pow2_pos(x.len());
    if n > 0 && x.len() > 0 {
        lemma_window_bound(x.drop_last(), (n - 1) as nat);
        lemma_pow2_unfold(n);
        lemma_pow2_unfold(x.len());
    }
}

/// A longer window has one more, older, bit on top.
pub proof fn lemma_window_top(x: Seq<bool>, n: nat)
    ensures
        window(x, n + 1) == window(x, n) + pow2(n) * bit_value(x.len() > n && x[x.len() - 1 - n]),
    decreases n,
{
    if x.len() == 0 {
    } else if n == 0 {
        vstd::arithmetic::power2::lemma2_to64();
        assert(window(x.drop_last(), 0) == 0);
        assert(window(x, 1) == 2 * window(x.drop_last(), 0) + bit_value(x.last()));
    } else {
        let y = x.drop_last();
        lemma_window_top(y, (n - 1) as nat);
        lemma_pow2_unfold(n);
        assert(y.len() > n - 1 ==> y[y.len() - 1 - (n - 1)] == x[x.len() - 1 - n]);
        let b = bit_value(x.len() > n && x[x.len() - 1 - n]);
        assert(2 * (pow2((n - 1) as nat) * b) == pow2(n) * b) by (nonlinear_arith)
            requires
                pow2(n) == 2 * pow2((n - 1) as nat),
        ;
    }
}

/// Bits of a number, most significant first.
pub open spec fn state_bits(s: int, n: nat) -> Seq<bool>
    decreases n,
{
    if n == 0 {
        seq![]
    } else {
        state_bits(s / 2, (n - 1) as nat).push(s % 2 == 1)
    }
}

pub proof fn lemma_state_bits(y: Seq<bool>, s: int, n: nat)
    requires
        0 <= s < pow2(n),
    ensures
        state_bits(s, n).len() == n,
        window(y + state_bits(s, n), n) == s,
    decreases n,
{
    if n == 0 {
        vstd::arithmetic::power2::lemma2_to64();
    } else {
        lemma_pow2_unfold(n);
        lemma_state_bits(y, s / 2, (n - 1) as nat);
        let x = y + state_bits(s, n);
        assert(x.drop_last() =~= y + state_bits(s / 2, (n - 1) as nat));
    }
}

pub proof fn lemma_dist_bound(cost: spec_fn(int, bool) -> nat, base: int, out: nat, n: nat)
    requires
        bounded_cost(cost),
    ensures
        dist_upto(cost, base, out, n) <= n * 255,
    decreases n,
{
    if n > 0 {
        lemma_dist_bound(cost, base, out, (n - 1) as nat);
        assert(cost(base + n - 1, nat_bit(out, (n - 1) as nat)) <= 255);
    }
}

pub proof fn lemma_output_bound(polys: Seq<u16>, reg: nat, n: nat)
    ensures
        output_upto(polys, reg, n) < pow2(n),
    decreases n,
{
    lemma_pow2_pos(n);
    if n > 0 {
        lemma_output_bound(polys, reg, (n - 1) as nat);
        lemma_pow2_unfold(n);
    }
}

/// Adding a higher power of two leaves the lower bits alone.
pub proof fn lemma_nat_bit_add(x: nat, n: nat, j: nat)
    requires
        x < pow2(n),
        j <= n,
    ensures
        nat_bit(x + pow2(n), j) == (j == n || nat_bit(x, j)),
        j == n ==> !nat_bit(x, j),
    decreases n,
{
    if n == 0 {
        vstd::arithmetic::power2::lemma2_to64();
    } else {
        lemma_pow2_unfold(n);
        let h = pow2((n - 1) as nat);
        assert((x + 2 * h) / 2 == x / 2 + h);
        assert((x + 2 * h) % 2 == x % 2);
        if j > 0 {
            lemma_nat_bit_add(x / 2, (n - 1) as nat, (j - 1) as nat);
        } else {
            assert(n > 0);
        }
    }
}

/// Bit `j` of the output is what polynomial `j` makes of the register.
pub proof fn lemma_output_bit(polys: Seq<u16>, reg: nat, n: nat, j: nat)
    requires
        j < n,
    ensures
        nat_bit(output_upto(polys, reg, n), j) == dot(reg, polys[j as int] as nat),
    decreases n,
{
    let m = (n - 1) as nat;
    lemma_output_bound(polys, reg, m);
    lemma_nat_bit_add(output_upto(polys, reg, m), m, j);
    if j < m {
        lemma_output_bit(polys, reg, m, j);
    }
}

impl Trellis {
    /// One step of a message in terms of states: where the next state is `s` and
    /// the oldest bit `high`, the state before was `previous(s, high)`.
    pub proof fn lemma_step(self, x: Seq<bool>) -> (high: int)
        requires
            self.valid(),
            x.len() > 0,
        ensures
            high == 0 || high == 1,
            high == bit_value(x.len() >= self.order && x[x.len() - self.order]),
            0 <= self.state(x) < self.num_states(),
            self.state(x) % 2 == bit_value(x.last()),
            self.previous(self.state(x), high) == self.state(x.drop_last()),
            self.register(self.state(x), high) == window(x, self.order),
    {
        let n = (self.order - 1) as nat;
        let high = bit_value(x.len() > n && x[x.len() - 1 - n]);
        lemma_window_top(x, n);
        lemma_window_top(x.drop_last(), (n - 1) as nat);
        lemma_window_bound(x, n);
        let y = x.drop_last();
        assert(y.len() > n - 1 ==> y[y.len() - 1 - (n - 1)] == x[x.len() - 1 - n]);
        assert(pow2(n) * high == high * pow2(n)) by (nonlinear_arith);
        assert(pow2((n - 1) as nat) * high == high * pow2((n - 1) as nat)) by (nonlinear_arith);
        high
    }

    pub proof fn lemma_dist(self, cost: spec_fn(int, bool) -> nat, t: int, out: nat)
        requires
            bounded_cost(cost),
        ensures
            self.dist(cost, t, out) <= self.max_dist(),
    {
        lemma_dist_bound(cost, t * self.rate, out, self.rate);
    }

    /// The metric is the smaller of the two ways in.
    pub proof fn lemma_metric_step(self, cost: spec_fn(int, bool) -> nat, t: nat, s: int)
        ensures
            self.metric(cost, t + 1, s) == self.branch(cost, t, s, self.choice(cost, t, s)),
            self.metric(cost, t + 1, s) <= self.branch(cost, t, s, 0),
            t >= self.order - 1 ==> self.metric(cost, t + 1, s) <= self.branch(cost, t, s, 1),
    {
    }

    /// The survivor is a path into its state and costs what the metric says.
    pub proof fn lemma_survivor(self, cost: spec_fn(int, bool) -> nat, t: nat, s: int)
        requires
            self.valid(),
            self.live(t, s),
        ensures
            self.survivor(cost, t, s).len() == t,
            self.state(self.survivor(cost, t, s)) == s,
            self.path_cost(cost, self.survivor(cost, t, s)) == self.metric(cost, t, s),
        decreases t,
    {
        if t == 0 {
            vstd::arithmetic::power2::lemma2_to64();
        } else {
            let i = (t - 1) as nat;
            let high = self.choice(cost, i, s);
            let p = self.previous(s, high);
            let n = (self.order - 1) as nat;
            lemma_pow2_unfold(n);
            self.lemma_previous_live(i, s, high);
            self.lemma_survivor(cost, i, p);
            let y = self.survivor(cost, i, p);
            let x = self.survivor(cost, t, s);
            assert(x.drop_last() =~= y);
            lemma_window_top(y, (n - 1) as nat);
            lemma_window_bound(y, (n - 1) as nat);
            let h = pow2((n - 1) as nat);
            let b = bit_value(y.len() > n - 1 && y[y.len() - 1 - (n - 1)]);
            // p == low part + h * b == s / 2 + high * h, and both low parts are below h
            assert(h * b == b * h) by (nonlinear_arith);
            assert(window(y, (n - 1) as nat) == s / 2) by {
                let w = window(y, (n - 1) as nat);
                assert(w + b * h == s / 2 + high * h);
                assert(b == high && w == s / 2) by (nonlinear_arith)
                    requires
                        w + b * h == s / 2 + high * h,
                        0 <= w < h,
                        0 <= s / 2 < h,
                        b == 0 || b == 1,
                        high == 0 || high == 1,
                ;
            }
            assert(window(x, n) == 2 * window(y, (n - 1) as nat) + bit_value(x.last()));
            assert(window(x, self.order) == 2 * window(y, n) + bit_value(x.last()));
            assert(2 * (high * h) == high * pow2(n)) by (nonlinear_arith)
                requires
                    pow2(n) == 2 * h,
            ;
            assert(window(x, self.order) == self.register(s, high));
            self.lemma_metric_step(cost, i, s);
        }
    }

    /// Going back from a live state leads to a live state.
    pub proof fn lemma_previous_live(self, t: nat, s: int, high: int)
        requires
            self.valid(),
            self.live(t + 1, s),
            high == 0 || high == 1,
            t < self.order - 1 ==> high == 0,
        ensures
            self.live(t, self.previous(s, high)),
    {
        let n = (self.order - 1) as nat;
        let h = pow2((n - 1) as nat);
        lemma_pow2_unfold(n);
        assert(0 <= high * h <= h) by (nonlinear_arith)
            requires
                high == 0 || high == 1,
                h >= 0,
        ;
        if t < self.order - 1 {
            lemma_pow2_unfold(t + 1);
            if t + 1 == self.order - 1 {
                assert(t + 1 == n);
            }
        }
    }

    /// No path into a state costs less than the state's metric.
    pub proof fn lemma_metric_least(self, cost: spec_fn(int, bool) -> nat, x: Seq<bool>)
        requires
            self.valid(),
        ensures
            self.metric(cost, x.len(), self.state(x)) <= self.path_cost(cost, x),
        decreases x.len(),
    {
        if x.len() > 0 {
            let y = x.drop_last();
            self.lemma_metric_least(cost, y);
            let high = self.lemma_step(x);
            let i = y.len();
            self.lemma_metric_step(cost, i, self.state(x));
        }
    }

    /// A message leaves the register in a live state.
    pub proof fn lemma_state_live(self, x: Seq<bool>)
        requires
            self.valid(),
        ensures
            self.live(x.len(), self.state(x)),
    {
        lemma_window_bound(x, (self.order - 1) as nat);
    }

    proof fn lemma_path_cost_split(
        self,
        cost: spec_fn(int, bool) -> nat,
        x: Seq<bool>,
        n: int,
    )
        requires
            0 <= n <= x.len(),
            bounded_cost(cost),
        ensures
            self.path_cost(cost, x.take(n)) <= self.path_cost(cost, x),
            self.path_cost(cost, x) <= self.path_cost(cost, x.take(n)) + (x.len() - n)
                * self.max_dist(),
        decreases x.len() - n,
    {
        if n == x.len() {
            assert(x.take(n) =~= x);
        } else {
            self.lemma_path_cost_split(cost, x, n + 1);
            let y = x.take(n + 1);
            assert(y.drop_last() =~= x.take(n));
            self.lemma_dist(cost, y.len() - 1, self.output(window(y, self.order)));
            assert((x.len() - (n + 1)) * self.max_dist() + self.max_dist() == (x.len() - n)
                * self.max_dist()) by (nonlinear_arith);
        }
    }

    /// Once the register is full, metrics lie within `order - 1` steps' cost of
    /// each other: any state can be reached from any other in that many steps.
    pub proof fn lemma_spread(
        self,
        cost: spec_fn(int, bool) -> nat,
        t: nat,
        a: int,
        b: int,
    )
        requires
            self.valid(),
            bounded_cost(cost),
            t >= self.order - 1,
            0 <= a < self.num_states(),
            0 <= b < self.num_states(),
        ensures
            self.metric(cost, t, a) <= self.metric(cost, t, b) + (self.order - 1)
                * self.max_dist(),
    {
        let n = (self.order - 1) as nat;
        self.lemma_survivor(cost, t, b);
        let x = self.survivor(cost, t, b);
        let k = t - n;
        let y = x.take(k);
        lemma_state_bits(y, a, n);
        let z = y + state_bits(a, n);
        self.lemma_metric_least(cost, z);
        self.lemma_path_cost_split(cost, z, k);
        self.lemma_path_cost_split(cost, x, k);
        assert(z.take(k) =~= y);
    }

}

/// Two messages that first differ `a` steps ago give different outputs on a
/// polynomial whose lowest tap is `a`.
proof fn lemma_first_difference(x: Seq<bool>, y: Seq<bool>, n: nat, p: nat, a: nat)
    requires
        x.len() == y.len(),
        a < x.len(),
        a < n,
        x[x.len() - 1 - a] != y[y.len() - 1 - a],
        x.take(x.len() - 1 - a) == y.take(y.len() - 1 - a),
        nat_bit(p, a),
        forall|i: nat| i < a ==> !(#[trigger] nat_bit(p, i)),
    ensures
        dot(window(x, n) as nat, p) != dot(window(y, n) as nat, p),
    decreases a,
{
    let (xs, ys) = (x.drop_last(), y.drop_last());
    let m = (n - 1) as nat;
    lemma_window_bound(x, n);
    lemma_window_bound(y, n);
    lemma_window_bound(xs, m);
    lemma_window_bound(ys, m);
    assert(p > 0) by {
        if p == 0 {
            lemma_zero_bits(a);
        }
    }
    assert(window(x, n) as nat / 2 == window(xs, m) as nat);
    assert(window(y, n) as nat / 2 == window(ys, m) as nat);
    if a == 0 {
        assert(x.take(x.len() - 1) =~= xs);
        assert(y.take(y.len() - 1) =~= ys);
    } else {
        assert(!nat_bit(p, 0));
        assert(xs.take(xs.len() - 1 - (a - 1)) =~= x.take(x.len() - 1 - a));
        assert(ys.take(ys.len() - 1 - (a - 1)) =~= y.take(y.len() - 1 - a));
        assert forall|i: nat| i < a - 1 implies !(#[trigger] nat_bit(p / 2, i)) by {
            assert(!nat_bit(p, i + 1));
        }
        lemma_first_difference(xs, ys, m, p / 2, (a - 1) as nat);
    }
}

proof fn lemma_zero_bits(a: nat)
    ensures
        !nat_bit(0, a),
    decreases a,
{
    if a > 0 {
        lemma_zero_bits((a - 1) as nat);
    }
}

/// The lowest tap of all the polynomials.
proof fn lemma_lowest_tap(polys: Seq<u16>, j: int, a: nat) -> (r: (int, nat))
    requires
        0 <= j < polys.len(),
        nat_bit(polys[j] as nat, a),
    ensures
        0 <= r.0 < polys.len(),
        r.1 <= a,
        nat_bit(polys[r.0] as nat, r.1),
        forall|i: int, b: nat|
            0 <= i < polys.len() && b < r.1 ==> !(#[trigger] nat_bit(polys[i] as nat, b)),
    decreases a,
{
    if exists|i: int, b: nat|
        0 <= i < polys.len() && b < a && #[trigger] nat_bit(polys[i] as nat, b) {
        let (i, b) = choose|i: int, b: nat|
            0 <= i < polys.len() && b < a && #[trigger] nat_bit(polys[i] as nat, b);
        lemma_lowest_tap(polys, i, b)
    } else {
        (j, a)
    }
}

/// A cost that is zero in total is zero in every bit.
proof fn lemma_dist_zero(cost: spec_fn(int, bool) -> nat, base: int, out: nat, n: nat, j: nat)
    requires
        dist_upto(cost, base, out, n) == 0,
        j < n,
    ensures
        cost(base + j, nat_bit(out, j)) == 0,
    decreases n,
{
    if j < n - 1 {
        lemma_dist_zero(cost, base, out, (n - 1) as nat, j);
    }
}

impl Trellis {
    /// On a clean channel the message that was sent costs nothing.
    pub proof fn lemma_clean_path(
        self,
        cost: spec_fn(int, bool) -> nat,
        x: Seq<bool>,
        t: int,
    )
        requires
            self.valid(),
            self.clean(cost, x),
            0 <= t <= x.len(),
        ensures
            self.path_cost(cost, x.take(t)) == 0,
            self.metric(cost, t as nat, self.state(x.take(t))) == 0,
        decreases t,
    {
        if t > 0 {
            self.lemma_clean_path(cost, x, t - 1);
            let y = x.take(t);
            assert(y.drop_last() =~= x.take(t - 1));
            let out = self.output(window(y, self.order));
            self.lemma_clean_dist(cost, x, t - 1, self.rate);
        }
        self.lemma_metric_least(cost, x.take(t));
    }

    proof fn lemma_clean_dist(
        self,
        cost: spec_fn(int, bool) -> nat,
        x: Seq<bool>,
        t: int,
        n: nat,
    )
        requires
            self.valid(),
            self.clean(cost, x),
            0 <= t < x.len(),
            n <= self.rate,
        ensures
            dist_upto(
                cost,
                t * self.rate,
                self.output(window(x.take(t + 1), self.order)),
                n,
            ) == 0,
        decreases n,
    {
        if n > 0 {
            self.lemma_clean_dist(cost, x, t, (n - 1) as nat);
            self.lemma_encoded_index(x, t, n - 1);
            assert(cost(
                t * self.rate + (n - 1),
                self.encoded_bit(x, t * self.rate + (n - 1)),
            ) == 0);
        }
    }

    /// Encoded bit `t * rate + j` is bit `j` of step `t`.
    pub proof fn lemma_encoded_index(self, x: Seq<bool>, t: int, j: int)
        requires
            self.valid(),
            0 <= t < x.len(),
            0 <= j < self.rate,
        ensures
            0 <= t * self.rate + j < x.len() * self.rate,
            self.encoded_bit(x, t * self.rate + j) == nat_bit(
                self.output(window(x.take(t + 1), self.order)),
                j as nat,
            ),
    {
        let r = self.rate as int;
        vstd::arithmetic::div_mod::lemma_fundamental_div_mod_converse(t * r + j, r, t, j);
        assert(0 <= t * r + j < x.len() * r) by (nonlinear_arith)
            requires
                0 <= t < x.len(),
                0 <= j < r,
        ;
    }

    /// On a clean channel, a path without cost agrees with what was sent, except
    /// perhaps in its newest bits, which no tap has reached yet.
    pub proof fn lemma_free_path(
        self,
        cost: spec_fn(int, bool) -> nat,
        x: Seq<bool>,
        y: Seq<bool>,
        r: int,
    )
        requires
            self.valid(),
            self.has_tap(),
            self.clean(cost, x),
            y.len() <= x.len(),
            self.path_cost(cost, y) == 0,
            0 <= r,
            r + self.order <= y.len(),
        ensures
            x[r] == y[r],
        decreases r,
    {
        assert forall|i: int| 0 <= i < r implies x[i] == y[i] by {
            self.lemma_free_path(cost, x, y, i);
        }
        if x[r] != y[r] {
            let (j0, a0) = choose|j: int, a: nat|
                0 <= j < self.rate && a < self.order && #[trigger] nat_bit(self.polys[j] as nat, a);
            let (j, a) = lemma_lowest_tap(self.polys, j0, a0);
            let t = r + a;
            let (xs, ys) = (x.take(t + 1), y.take(t + 1));
            assert(xs.take(xs.len() - 1 - a) =~= ys.take(ys.len() - 1 - a));
            assert forall|i: nat| i < a implies !(#[trigger] nat_bit(
                self.polys[j] as nat,
                i,
            )) by {}
            lemma_first_difference(xs, ys, self.order, self.polys[j] as nat, a);
            lemma_output_bit(
                self.polys,
                window(xs, self.order) as nat,
                self.rate,
                j as nat,
            );
            lemma_output_bit(
                self.polys,
                window(ys, self.order) as nat,
                self.rate,
                j as nat,
            );
            self.lemma_encoded_index(x, t, j);
            // the step that emits the differing bit costs nothing, yet differs
            self.lemma_free_step(cost, y, t);
            lemma_dist_zero(
                cost,
                t * self.rate,
                self.output(window(ys, self.order)),
                self.rate,
                j as nat,
            );
            assert(cost(
                t * self.rate + j,
                nat_bit(self.output(window(ys, self.order)), j as nat),
            ) == 0);
        }
    }

    proof fn lemma_free_step(self, cost: spec_fn(int, bool) -> nat, y: Seq<bool>, t: int)
        requires
            self.path_cost(cost, y) == 0,
            0 <= t < y.len(),
        ensures
            self.dist(cost, t, self.output(window(y.take(t + 1), self.order))) == 0,
        decreases y.len(),
    {
        if t == y.len() - 1 {
            assert(y.take(t + 1) =~= y);
        } else {
            self.lemma_free_step(cost, y.drop_last(), t);
            assert(y.drop_last().take(t + 1) =~= y.take(t + 1));
        }
    }
}

} // verus!
