//! What a decode of a whole block comes to.
//!
//! The register starts and ends at zero. The first `order - 1` steps only fill
//! it; each step after that decides one message bit, the one that leaves the
//! register. Decided bits are kept in a history of limited length. Whenever the
//! history is full, the cheapest state of that moment is traced back past the
//! most recent decisions, which are still converging, and the oldest ones are
//! emitted. What remains at the end is traced back from the zero state.

use super::trellis::{
    bit_value, bounded_cost, lemma_window_bound, lemma_window_top, window, Trellis,
};
use super::util::group_length;
use vstd::arithmetic::power2::{
    lemma2_to64, lemma_pow2_adds, lemma_pow2_pos, lemma_pow2_unfold, pow2,
};
use vstd::prelude::*;

verus! {

/// One decode: the code, the costs that the channel delivered, and the number of
/// steps in the block.
pub struct Run {
    pub code: Trellis,
    pub cost: spec_fn(int, bool) -> nat,
    pub total: nat,
}

impl Run {
    pub open spec fn valid(self) -> bool {
        &&& self.code.valid()
        &&& self.code.order >= 4
        &&& bounded_cost(self.cost)
        &&& self.total >= 2 * self.code.order - 1
    }

    /// The number of encoded bits in the block.
    pub open spec fn num_bits(self) -> int {
        (self.total * self.code.rate) as int
    }

    /// Steps before the first decision.
    pub open spec fn head(self) -> nat {
        (self.code.order - 1) as nat
    }

    /// The number of decisions.
    pub open spec fn rows(self) -> nat {
        (self.total - self.head()) as nat
    }

    /// Bits emitted by one traceback.
    pub open spec fn group(self) -> int {
        group_length(self.code.order as int)
    }

    /// Decisions that a traceback passes over.
    pub open spec fn settle(self) -> int {
        5 * self.code.order as int
    }

    /// Decisions that the history holds.
    pub open spec fn capacity(self) -> int {
        self.settle() + self.group()
    }

    /// At step `t` only states that are multiples of this are still possible:
    /// near the end the newest bits are known to be zero.
    pub open spec fn step_at(self, t: int) -> int {
        if t < self.total - self.head() {
            1
        } else {
            pow2((t + 1 - (self.total - self.head())) as nat) as int
        }
    }

    /// The states that are looked at after step `t`.
    pub open spec fn kept(self, t: int, s: int) -> bool {
        0 <= s < self.code.num_states() && s % self.step_at(t) == 0
    }

    /// The cheapest state after `n` decisions.
    pub open spec fn best(self, n: int) -> int {
        self.best_at((self.head() + n) as nat, self.step_at(self.head() + n - 1))
    }

    /// The cheapest multiple of `step` after `t` steps.
    pub open spec fn best_at(self, t: nat, step: int) -> int {
        choose|s: int| #[trigger] self.code.is_best(self.cost, t, step, s)
    }

    /// The traceback that emits bit `r`: how many decisions have been made then.
    pub open spec fn traceback_for(self, r: int) -> int {
        self.capacity() + (r / self.group()) * self.group()
    }

    /// The path that bit `r` is read from.
    pub open spec fn path_for(self, r: int) -> Seq<bool> {
        let n = self.traceback_for(r);
        if n <= self.rows() {
            self.code.survivor(self.cost, (self.head() + n) as nat, self.best(n))
        } else {
            self.code.survivor(self.cost, self.total, 0)
        }
    }

    /// Bit `r` of the decoded message.
    pub open spec fn decoded_bit(self, r: int) -> bool {
        self.path_for(r)[r]
    }
}

/// The first least state is unique.
pub proof fn lemma_best_unique(run: Run, n: int, s: int)
    requires
        run.code.is_best(
            run.cost,
            (run.head() + n) as nat,
            run.step_at(run.head() + n - 1),
            s,
        ),
    ensures
        run.best(n) == s,
{
    let t = (run.head() + n) as nat;
    let b = run.best(n);
    assert(run.code.metric(run.cost, t, b) <= run.code.metric(run.cost, t, s));
    assert(run.code.metric(run.cost, t, s) <= run.code.metric(run.cost, t, b));
}

/// Going back from a possible state leads to a possible state.
pub proof fn lemma_kept_previous(run: Run, t: int, s: int, high: int)
    requires
        run.valid(),
        run.head() <= t < run.total,
        run.kept(t, s),
        high == 0 || high == 1,
    ensures
        run.kept(t - 1, run.code.previous(s, high)),
{
    let n = run.head();
    let m = (n - 1) as nat;
    let h = pow2(m) as int;
    lemma_pow2_unfold(n);
    let p = run.code.previous(s, high);
    assert(high * h == 0 || high * h == h) by (nonlinear_arith)
        requires
            high == 0 || high == 1,
    ;
    if t >= run.total - n {
        let k = (t + 1 - (run.total - n)) as nat;
        let step = pow2(k) as int;
        let half = pow2((k - 1) as nat) as int;
        lemma_pow2_unfold(k);
        lemma_pow2_pos((k - 1) as nat);
        assert(run.step_at(t - 1) == half) by {
            if k == 1 {
                lemma2_to64();
            }
        }
        // s is a multiple of the step, so half of it is a multiple of half the step
        let q = s / step;
        vstd::arithmetic::div_mod::lemma_fundamental_div_mod(s, step);
        assert(s == step * q);
        assert(step * q == 2 * (half * q)) by (nonlinear_arith)
            requires
                step == 2 * half,
        ;
        assert(s / 2 == half * q);
        let e = (m - (k - 1)) as nat;
        lemma_pow2_adds((k - 1) as nat, e);
        let hh = pow2(e) as int;
        assert(high * h == half * (high * hh)) by (nonlinear_arith)
            requires
                h == half * hh,
        ;
        assert(p == half * (q + high * hh)) by (nonlinear_arith)
            requires
                p == half * q + half * (high * hh),
        ;
        vstd::arithmetic::div_mod::lemma_mod_multiples_basic(q + high * hh, half);
        assert((q + high * hh) * half == half * (q + high * hh)) by (nonlinear_arith);
    } else {
        assert(run.step_at(t - 1) == 1);
    }
}

/// The decision at step `t` is the bit that leaves the register there.
pub proof fn lemma_choice_bit(run: Run, t: nat, s: int)
    requires
        run.valid(),
        t >= run.head(),
        0 <= s < run.code.num_states(),
    ensures
        run.code.survivor(run.cost, t + 1, s).len() == t + 1,
        run.code.survivor(run.cost, t + 1, s)[t - run.head()] == (run.code.choice(run.cost, t, s)
            == 1),
        run.code.survivor(run.cost, t + 1, s).take(t as int) == run.code.survivor(
            run.cost,
            t,
            run.code.previous(s, run.code.choice(run.cost, t, s)),
        ),
{
    let code = run.code;
    let high = code.choice(run.cost, t, s);
    let p = code.previous(s, high);
    let n = run.head();
    code.lemma_survivor(run.cost, t + 1, s);
    code.lemma_previous_live(t, s, high);
    code.lemma_survivor(run.cost, t, p);
    let y = code.survivor(run.cost, t, p);
    let x = code.survivor(run.cost, t + 1, s);
    assert(x.take(t as int) =~= y);
    lemma_window_top(y, (n - 1) as nat);
    lemma_window_bound(y, (n - 1) as nat);
    lemma_pow2_unfold(n);
    let h = pow2((n - 1) as nat) as int;
    let w = window(y, (n - 1) as nat);
    let b = bit_value(y[y.len() - 1 - (n - 1)]);
    assert(b == high) by (nonlinear_arith)
        requires
            w + h * b == s / 2 + high * h,
            0 <= w < h,
            0 <= s / 2 < h,
            b == 0 || b == 1,
            high == 0 || high == 1,
    ;
    assert(x[t - n] == y[t - n]);
}

/// On a clean channel every decoded bit is the bit that was sent, apart from the
/// flush bits at the very end.
pub proof fn lemma_clean_bit(run: Run, x: Seq<bool>, r: int)
    requires
        run.valid(),
        run.code.has_tap(),
        run.code.clean(run.cost, x),
        x.len() == run.total,
        forall|i: int| run.rows() <= i < run.total ==> !(#[trigger] x[i]),
        0 <= r,
        r + run.code.order <= run.total,
    ensures
        run.decoded_bit(r) == x[r],
{
    let code = run.code;
    let n = run.traceback_for(r);
    let g = run.group();
    vstd::arithmetic::div_mod::lemma_fundamental_div_mod(r, g);
    assert((r / g) * g == g * (r / g)) by (nonlinear_arith);
    if n <= run.rows() {
        let t = (run.head() + n) as nat;
        let truth = code.state(x.take(t as int));
        code.lemma_clean_path(run.cost, x, t as int);
        code.lemma_state_live(x.take(t as int));
        lemma_truth_kept(run, x, t as int);
        lemma_best_exists(run, n);
        let s = run.best(n);
        assert(code.is_best(run.cost, t, run.step_at(t - 1), s));
        assert(code.metric(run.cost, t, s) <= code.metric(run.cost, t, truth));
        code.lemma_survivor(run.cost, t, s);
        code.lemma_free_path(run.cost, x, code.survivor(run.cost, t, s), r);
    } else {
        let t = run.total;
        assert(x.take(t as int) =~= x);
        code.lemma_clean_path(run.cost, x, t as int);
        lemma_zero_window(x, run.head());
        lemma_pow2_pos(run.head());
        code.lemma_survivor(run.cost, t, 0);
        code.lemma_free_path(run.cost, x, code.survivor(run.cost, t, 0), r);
    }
}

/// A window over zeros is zero.
pub proof fn lemma_zero_window(x: Seq<bool>, n: nat)
    requires
        forall|i: int| x.len() - n <= i < x.len() && 0 <= i ==> !(#[trigger] x[i]),
    ensures
        window(x, n) == 0,
    decreases n,
{
    if n > 0 && x.len() > 0 {
        assert(!x[x.len() - 1]);
        let y = x.drop_last();
        assert forall|i: int| y.len() - (n - 1) <= i < y.len() && 0 <= i implies !(
        #[trigger] y[i]) by {
            assert(!x[i]);
        }
        lemma_zero_window(y, (n - 1) as nat);
    }
}

/// Only zeros make a window of zero.
pub proof fn lemma_window_zero(x: Seq<bool>, n: nat)
    requires
        window(x, n) == 0,
    ensures
        forall|i: int| x.len() - n <= i < x.len() && 0 <= i ==> !(#[trigger] x[i]),
    decreases n,
{
    if n > 0 && x.len() > 0 {
        let y = x.drop_last();
        lemma_window_bound(y, (n - 1) as nat);
        lemma_window_zero(y, (n - 1) as nat);
        assert forall|i: int| x.len() - n <= i < x.len() && 0 <= i implies !(#[trigger] x[i]) by {
            if i < y.len() {
                assert(x[i] == y[i]);
            }
        }
    }
}

/// `k` zeros at the end make the window a multiple of 2^k.
proof fn lemma_window_multiple(x: Seq<bool>, n: nat, k: nat)
    requires
        k <= n,
        k <= x.len(),
        forall|i: int| x.len() - k <= i < x.len() ==> !(#[trigger] x[i]),
    ensures
        window(x, n) % (pow2(k) as int) == 0,
    decreases k,
{
    if k == 0 {
        lemma2_to64();
    } else {
        let y = x.drop_last();
        assert(!x[x.len() - 1]);
        assert forall|i: int| y.len() - (k - 1) <= i < y.len() implies !(#[trigger] y[i]) by {
            assert(!x[i]);
        }
        lemma_window_multiple(y, (n - 1) as nat, (k - 1) as nat);
        lemma_pow2_unfold(k);
        let (w, h) = (window(y, (n - 1) as nat), pow2((k - 1) as nat) as int);
        lemma_pow2_pos((k - 1) as nat);
        vstd::arithmetic::div_mod::lemma_fundamental_div_mod(w, h);
        let q = w / h;
        assert(2 * w == q * (2 * h)) by (nonlinear_arith)
            requires
                w == h * q,
        ;
        vstd::arithmetic::div_mod::lemma_mod_multiples_basic(q, 2 * h);
    }
}

/// The state of what was sent is always among those looked at.
pub proof fn lemma_truth_kept(run: Run, x: Seq<bool>, t: int)
    requires
        run.valid(),
        x.len() == run.total,
        forall|i: int| run.rows() <= i < run.total ==> !(#[trigger] x[i]),
        run.head() < t <= run.total,
    ensures
        run.kept(t - 1, run.code.state(x.take(t))),
{
    let y = x.take(t);
    lemma_window_bound(y, run.head());
    if t - 1 >= run.total - run.head() {
        let k = (t - (run.total - run.head())) as nat;
        assert forall|i: int| y.len() - k <= i < y.len() implies !(#[trigger] y[i]) by {
            assert(!x[i]);
        }
        lemma_window_multiple(y, run.head(), k);
    }
}

/// There is a first least state.
pub proof fn lemma_best_exists(run: Run, n: int)
    requires
        run.valid(),
        0 < n <= run.rows(),
    ensures
        run.code.is_best(
            run.cost,
            (run.head() + n) as nat,
            run.step_at(run.head() + n - 1),
            run.best(n),
        ),
{
    let t = (run.head() + n) as nat;
    let step = run.step_at(t - 1);
    lemma_pow2_pos(run.head());
    lemma_step_positive(run, t - 1);
    let s = lemma_least_below(run, t, step, run.code.num_states() as int);
    assert(run.code.is_best(run.cost, t, step, s));
}

pub proof fn lemma_step_positive(run: Run, t: int)
    requires
        run.head() <= t + 1,
    ensures
        run.step_at(t) >= 1,
{
    if t >= run.total - run.head() {
        lemma_pow2_pos((t + 1 - (run.total - run.head())) as nat);
    }
}

proof fn lemma_least_below(run: Run, t: nat, step: int, bound: int) -> (s: int)
    requires
        bound >= 1,
        step >= 1,
    ensures
        0 <= s < bound,
        s % step == 0,
        forall|r: int|
            0 <= r < bound && r % step == 0 ==> {
                &&& run.code.metric(run.cost, t, s) <= #[trigger] run.code.metric(run.cost, t, r)
                &&& r < s ==> run.code.metric(run.cost, t, s) < run.code.metric(run.cost, t, r)
            },
    decreases bound,
{
    if bound == 1 {
        vstd::arithmetic::div_mod::lemma_small_mod(0, step as nat);
        0
    } else {
        let s = lemma_least_below(run, t, step, bound - 1);
        let last = bound - 1;
        if last % step == 0 && run.code.metric(run.cost, t, last) < run.code.metric(
            run.cost,
            t,
            s,
        ) {
            last
        } else {
            s
        }
    }
}

} // verus!
