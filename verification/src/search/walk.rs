//! Walks through the states of a code, and what they put out.
//!
//! Here a state is the full shift register, so that its output belongs to it. A
//! walk is the sequence of bits that shift in. Its cost is the weight of the
//! outputs of the states that it enters.

use super::gf2::{
    lemma_add_bits, lemma_degree_exists, lemma_double_bits, lemma_mul_degree, lemma_mul_zero,
    lemma_same_bits, lemma_zero_bits, poly_mul,
};
use super::weight::{input_weight, state_weight};
use crate::convolutional::trellis::{bit_value, dot, nat_bit};
use crate::convolutional::util::ones;
use vstd::arithmetic::power2::{
    lemma2_to64, lemma_pow2_pos, lemma_pow2_strictly_increases, lemma_pow2_unfold, pow2,
};
use vstd::prelude::*;

verus! {

/// The states of a code and the moves between them.
pub struct Graph {
    pub rate: nat,
    pub order: nat,
    pub polys: Seq<u16>,
}

impl Graph {
    pub open spec fn valid(self) -> bool {
        &&& 1 <= self.order
        &&& self.rate == self.polys.len()
    }

    /// No polynomial reaches past the register.
    pub open spec fn fits(self) -> bool {
        forall|i: int| 0 <= i < self.polys.len() ==> #[trigger] self.polys[i] < pow2(self.order)
    }

    pub open spec fn num_states(self) -> int {
        pow2(self.order) as int
    }

    /// The state after `b` shifts in.
    pub open spec fn next(self, s: int, b: bool) -> int {
        (2 * s + bit_value(b)) % self.num_states()
    }

    /// The weight of a state's output.
    pub open spec fn weight(self, s: int) -> nat {
        state_weight(self.polys, s, self.rate)
    }

    /// Where a walk from `s` ends.
    pub open spec fn end(self, s: int, x: Seq<bool>) -> int
        decreases x.len(),
    {
        if x.len() == 0 {
            s
        } else {
            self.next(self.end(s, x.drop_last()), x.last())
        }
    }

    /// What a walk from `s` costs.
    pub open spec fn cost(self, s: int, x: Seq<bool>) -> nat
        decreases x.len(),
    {
        if x.len() == 0 {
            0
        } else {
            self.cost(s, x.drop_last()) + self.weight(self.end(s, x))
        }
    }

    /// Some walk from `s` to zero costs `w`.
    pub open spec fn reaches(self, s: int, w: nat) -> bool {
        exists|x: Seq<bool>| self.end(s, x) == 0 && #[trigger] self.cost(s, x) == w
    }

    pub open spec fn is_least(self, s: int, w: nat) -> bool {
        &&& self.reaches(s, w)
        &&& forall|v: nat| #[trigger] self.reaches(s, v) ==> w <= v
    }

    /// The least cost of a walk from `s` to zero.
    pub open spec fn least(self, s: int) -> nat {
        choose|w: nat| #[trigger] self.is_least(s, w)
    }

    /// The free distance: the least weight of a walk that leaves the zero state
    /// and comes back to it.
    pub open spec fn free_distance(self) -> nat {
        self.weight(1) + self.least(1)
    }

    /// A walk that leaves the zero state at once and comes back to it.
    pub open spec fn is_detour(self, x: Seq<bool>) -> bool {
        x.len() > 0 && x[0] && self.end(0, x) == 0
    }

    pub proof fn lemma_next(self, s: int, b: bool)
        requires
            self.valid(),
        ensures
            0 <= self.next(s, b) < self.num_states(),
            self.num_states() >= 2,
            self.next(0, b) == bit_value(b),
    {
        lemma2_to64();
        lemma_pow2_unfold(self.order);
        lemma_pow2_pos((self.order - 1) as nat);
        vstd::arithmetic::div_mod::lemma_mod_bound(2 * s + bit_value(b), self.num_states());
        vstd::arithmetic::div_mod::lemma_small_mod(bit_value(b) as nat, pow2(self.order));
    }

    pub proof fn lemma_end_range(self, s: int, x: Seq<bool>)
        requires
            self.valid(),
            0 <= s < self.num_states(),
        ensures
            0 <= self.end(s, x) < self.num_states(),
    {
        if x.len() > 0 {
            self.lemma_next(self.end(s, x.drop_last()), x.last());
        }
    }

    /// A walk in two parts.
    pub proof fn lemma_join(self, s: int, x: Seq<bool>, y: Seq<bool>)
        ensures
            self.end(s, x + y) == self.end(self.end(s, x), y),
            self.cost(s, x + y) == self.cost(s, x) + self.cost(self.end(s, x), y),
        decreases y.len(),
    {
        if y.len() == 0 {
            assert(x + y =~= x);
        } else {
            self.lemma_join(s, x, y.drop_last());
            assert((x + y).drop_last() =~= x + y.drop_last());
            assert((x + y).last() == y.last());
        }
    }

    /// The first step of a walk.
    pub proof fn lemma_first(self, s: int, x: Seq<bool>)
        requires
            x.len() > 0,
        ensures
            self.end(s, x) == self.end(self.next(s, x[0]), x.drop_first()),
            self.cost(s, x) == self.weight(self.next(s, x[0])) + self.cost(
                self.next(s, x[0]),
                x.drop_first(),
            ),
    {
        let a = seq![x[0]];
        assert(x =~= a + x.drop_first());
        self.lemma_join(s, a, x.drop_first());
        assert(a.drop_last() =~= Seq::<bool>::empty());
        assert(self.end(s, a.drop_last()) == s);
        assert(self.cost(s, a.drop_last()) == 0);
    }

    /// A step in front of a walk.
    pub proof fn lemma_prepend(self, s: int, b: bool, y: Seq<bool>)
        ensures
            self.end(s, seq![b] + y) == self.end(self.next(s, b), y),
            self.cost(s, seq![b] + y) == self.weight(self.next(s, b)) + self.cost(
                self.next(s, b),
                y,
            ),
    {
        let x = seq![b] + y;
        self.lemma_first(s, x);
        assert(x.drop_first() =~= y);
    }

    /// Zeros flush the register.
    pub proof fn lemma_flush(self, s: int, k: nat)
        requires
            self.valid(),
            0 <= s < self.num_states(),
        ensures
            self.end(s, Seq::new(k, |i: int| false)) == (s * pow2(k)) % self.num_states(),
            k == self.order ==> self.end(s, Seq::new(k, |i: int| false)) == 0,
        decreases k,
    {
        let n = self.num_states();
        let z = Seq::new(k, |i: int| false);
        lemma2_to64();
        if k == 0 {
            assert(s * 1 == s);
            vstd::arithmetic::div_mod::lemma_small_mod(s as nat, n as nat);
        } else {
            let m = (k - 1) as nat;
            self.lemma_flush(s, m);
            assert(z.drop_last() =~= Seq::new(m, |i: int| false));
            lemma_pow2_unfold(k);
            let a = s * pow2(m);
            assert(s * pow2(k) == 2 * a) by (nonlinear_arith)
                requires
                    a == s * pow2(m),
                    pow2(k) == 2 * pow2(m),
            ;
            vstd::arithmetic::div_mod::lemma_mul_mod_noop_right(2, a, n);
            assert(2 * (a % n) + bit_value(false) == 2 * (a % n));
        }
        if k == self.order {
            vstd::arithmetic::div_mod::lemma_mod_multiples_basic(s, n);
        }
    }

    proof fn lemma_some_least(self, s: int, w: nat)
        requires
            self.reaches(s, w),
        ensures
            exists|v: nat| #[trigger] self.is_least(s, v),
        decreases w,
    {
        if !self.is_least(s, w) {
            let v = choose|v: nat| #[trigger] self.reaches(s, v) && w > v;
            self.lemma_some_least(s, v);
        }
    }

    /// Every state has a least cost to zero.
    pub proof fn lemma_least(self, s: int)
        requires
            self.valid(),
            0 <= s < self.num_states(),
        ensures
            self.is_least(s, self.least(s)),
    {
        self.lemma_flush(s, self.order);
        let z = Seq::new(self.order, |i: int| false);
        assert(self.reaches(s, self.cost(s, z)));
        self.lemma_some_least(s, self.cost(s, z));
    }

    /// No walk to zero is cheaper than the least.
    pub proof fn lemma_least_bound(self, s: int, x: Seq<bool>)
        requires
            self.valid(),
            0 <= s < self.num_states(),
            self.end(s, x) == 0,
        ensures
            self.least(s) <= self.cost(s, x),
    {
        self.lemma_least(s);
        assert(self.reaches(s, self.cost(s, x)));
    }

    /// The free distance is the least weight of a detour.
    pub proof fn lemma_free_distance(self, x: Seq<bool>)
        requires
            self.valid(),
            self.is_detour(x),
        ensures
            self.free_distance() <= self.cost(0, x),
    {
        self.lemma_first(0, x);
        self.lemma_next(0, true);
        self.lemma_least_bound(1, x.drop_first());
    }

    /// Some detour has the free distance as its weight.
    pub proof fn lemma_free_distance_attained(self) -> (x: Seq<bool>)
        requires
            self.valid(),
        ensures
            self.is_detour(x),
            self.cost(0, x) == self.free_distance(),
    {
        self.lemma_next(0, true);
        self.lemma_least(1);
        let y = choose|y: Seq<bool>| self.end(1, y) == 0 && #[trigger] self.cost(1, y)
            == self.least(1);
        self.lemma_prepend(0, true, y);
        seq![true] + y
    }
}

/// A bit sequence as a number, first bit least significant.
pub open spec fn number(x: Seq<bool>) -> nat
    decreases x.len(),
{
    if x.len() == 0 {
        0
    } else {
        (bit_value(x[0]) + 2 * number(x.drop_first())) as nat
    }
}

pub proof fn lemma_number_bit(x: Seq<bool>, i: nat)
    ensures
        nat_bit(number(x), i) == (i < x.len() && x[i as int]),
    decreases x.len(),
{
    if x.len() == 0 {
        lemma_zero_bits(i);
    } else {
        let y = x.drop_first();
        assert(number(x) / 2 == number(y));
        if i > 0 {
            lemma_number_bit(y, (i - 1) as nat);
        }
    }
}

/// The exclusive-or of the first `n` values of `f`.
pub open spec fn parity(f: spec_fn(nat) -> bool, n: nat) -> bool
    decreases n,
{
    if n == 0 {
        false
    } else {
        parity(f, (n - 1) as nat) != f((n - 1) as nat)
    }
}

pub proof fn lemma_parity_same(f: spec_fn(nat) -> bool, g: spec_fn(nat) -> bool, n: nat)
    requires
        forall|j: nat| j < n ==> #[trigger] f(j) == g(j),
    ensures
        parity(f, n) == parity(g, n),
    decreases n,
{
    if n > 0 {
        assert(f((n - 1) as nat) == g((n - 1) as nat));
        lemma_parity_same(f, g, (n - 1) as nat);
    }
}

/// Values that are false do not count.
pub proof fn lemma_parity_longer(f: spec_fn(nat) -> bool, n: nat, m: nat)
    requires
        n <= m,
        forall|j: nat| n <= j < m ==> !(#[trigger] f(j)),
    ensures
        parity(f, m) == parity(f, n),
    decreases m - n,
{
    if n < m {
        assert(!f((m - 1) as nat));
        lemma_parity_longer(f, n, (m - 1) as nat);
    }
}

/// Taking the first value off.
pub proof fn lemma_parity_first(f: spec_fn(nat) -> bool, g: spec_fn(nat) -> bool, n: nat)
    requires
        forall|j: nat| #[trigger] g(j) == f(j + 1),
    ensures
        parity(f, n + 1) == (f(0) != parity(g, n)),
    decreases n,
{
    if n > 0 {
        lemma_parity_first(f, g, (n - 1) as nat);
        assert(g((n - 1) as nat) == f((n - 1) as nat + 1));
    } else {
        assert(parity(f, 0) == false);
    }
}

/// Tapping a register, bit by bit.
pub proof fn lemma_dot_parity(s: nat, g: nat, n: nat)
    requires
        g < pow2(n),
    ensures
        dot(s, g) == parity(|j: nat| nat_bit(s, j) && nat_bit(g, j), n),
    decreases n,
{
    let f = |j: nat| nat_bit(s, j) && nat_bit(g, j);
    lemma2_to64();
    if n == 0 {
        assert(g == 0);
    } else if g == 0 {
        assert forall|j: nat| 0 <= j < n implies !(#[trigger] f(j)) by {
            lemma_zero_bits(j);
        }
        lemma_parity_longer(f, 0, n);
    } else {
        let m = (n - 1) as nat;
        lemma_pow2_unfold(n);
        lemma_dot_parity(s / 2, g / 2, m);
        let h = |j: nat| nat_bit(s / 2, j) && nat_bit(g / 2, j);
        assert forall|j: nat| #[trigger] h(j) == f(j + 1) by {
            assert(nat_bit(s, j + 1) == nat_bit(s / 2, j));
            assert(nat_bit(g, j + 1) == nat_bit(g / 2, j));
        }
        lemma_parity_first(f, h, m);
    }
}

/// A coefficient of a product.
pub proof fn lemma_product_bit(u: nat, g: nat, i: nat)
    ensures
        nat_bit(poly_mul(u, g), i) == parity(
            |j: nat| nat_bit(g, j) && j <= i && nat_bit(u, (i - j) as nat),
            i + 1,
        ),
    decreases u,
{
    let f = |j: nat| nat_bit(g, j) && j <= i && nat_bit(u, (i - j) as nat);
    if u == 0 {
        lemma_zero_bits(i);
        assert forall|j: nat| 0 <= j < i + 1 implies !(#[trigger] f(j)) by {
            lemma_zero_bits((i - j) as nat);
        }
        lemma_parity_longer(f, 0, i + 1);
    } else {
        let v = u / 2;
        let low = if u % 2 == 1 {
            g
        } else {
            0
        };
        let high = 2 * poly_mul(v, g);
        lemma_add_bits(low, high, i);
        lemma_double_bits(poly_mul(v, g), i);
        lemma_zero_bits(i);
        assert(f(i) == (nat_bit(g, i) && u % 2 == 1));
        if i > 0 {
            let k = (i - 1) as nat;
            lemma_product_bit(v, g, k);
            let h = |j: nat| nat_bit(g, j) && j <= k && nat_bit(v, (k - j) as nat);
            assert forall|j: nat| j < i implies #[trigger] h(j) == f(j) by {
                assert((i - j) as nat == (k - j) as nat + 1);
                assert(nat_bit(u, (k - j) as nat + 1) == nat_bit(v, (k - j) as nat));
            }
            lemma_parity_same(h, f, i);
            assert(k + 1 == i);
        } else {
            assert(parity(f, 0) == false);
        }
    }
}

/// Bits of a remainder by a power of two.
proof fn lemma_mod_bit(s: nat, n: nat, j: nat)
    ensures
        nat_bit(s % pow2(n), j) == (j < n && nat_bit(s, j)),
    decreases n,
{
    lemma2_to64();
    lemma_pow2_pos(n);
    if n == 0 {
        assert(s % 1 == 0);
        lemma_zero_bits(j);
    } else {
        let m = (n - 1) as nat;
        lemma_pow2_unfold(n);
        lemma_pow2_pos(m);
        let h = pow2(m) as int;
        let r = s as int % (2 * h);
        vstd::arithmetic::div_mod::lemma_fundamental_div_mod(s as int, 2 * h);
        let q = s as int / (2 * h);
        assert((2 * h) * q == 2 * (h * q)) by (nonlinear_arith);
        assert(r % 2 == s as int % 2);
        assert(s as int / 2 == h * q + r / 2);
        assert(q * h == h * q) by (nonlinear_arith);
        vstd::arithmetic::div_mod::lemma_fundamental_div_mod_converse(
            s as int / 2,
            h,
            q,
            r / 2,
        );
        if j > 0 {
            lemma_mod_bit(s / 2, m, (j - 1) as nat);
        }
    }
}

/// Numbers have no bits past their size.
pub proof fn lemma_no_high_bits(g: nat, n: nat, j: nat)
    requires
        g < pow2(n),
        n <= j,
    ensures
        !nat_bit(g, j),
    decreases n,
{
    lemma2_to64();
    if n == 0 {
        lemma_zero_bits(j);
    } else {
        lemma_pow2_unfold(n);
        lemma_no_high_bits(g / 2, (n - 1) as nat, (j - 1) as nat);
    }
}

/// Numbers without high bits are small.
pub proof fn lemma_size_from_bits(g: nat, n: nat)
    requires
        forall|j: nat| n <= j ==> !(#[trigger] nat_bit(g, j)),
    ensures
        g < pow2(n),
    decreases n,
{
    lemma2_to64();
    if n == 0 {
        assert forall|j: nat| #[trigger] nat_bit(g, j) == nat_bit(0, j) by {
            lemma_zero_bits(j);
        }
        lemma_same_bits(g, 0);
    } else {
        assert forall|j: nat| n - 1 <= j implies !(#[trigger] nat_bit(g / 2, j)) by {
            assert(!nat_bit(g, j + 1));
        }
        lemma_size_from_bits(g / 2, (n - 1) as nat);
        lemma_pow2_unfold(n);
    }
}

/// The number of set bits among the lowest `n`.
pub open spec fn ones_below(v: nat, n: nat) -> nat
    decreases n,
{
    if n == 0 {
        0
    } else {
        ones_below(v, (n - 1) as nat) + if nat_bit(v, (n - 1) as nat) {
            1nat
        } else {
            0nat
        }
    }
}

proof fn lemma_ones_below_first(v: nat, n: nat)
    ensures
        ones_below(v, n + 1) == v % 2 + ones_below(v / 2, n),
    decreases n,
{
    if n > 0 {
        lemma_ones_below_first(v, (n - 1) as nat);
        assert(nat_bit(v, n) == nat_bit(v / 2, (n - 1) as nat));
    } else {
        assert(ones_below(v, 0) == 0);
        assert(ones_below(v / 2, 0) == 0);
        assert(nat_bit(v, 0) == (v % 2 == 1));
    }
}

pub proof fn lemma_ones_below(v: nat, n: nat)
    requires
        v < pow2(n),
    ensures
        ones(v) == ones_below(v, n),
    decreases n,
{
    lemma2_to64();
    if n == 0 {
        assert(v == 0);
    } else {
        lemma_pow2_unfold(n);
        lemma_ones_below(v / 2, (n - 1) as nat);
        lemma_ones_below_first(v, (n - 1) as nat);
        if v == 0 {
            assert(ones(0) == 0);
        }
    }
}

/// The set bits among the lowest `n` of the outputs of the first `r` polynomials
/// for the input `u`.
pub open spec fn output_ones(polys: Seq<u16>, u: nat, n: nat, r: nat) -> nat
    decreases r,
{
    if r == 0 {
        0
    } else {
        output_ones(polys, u, n, (r - 1) as nat) + ones_below(
            poly_mul(u, polys[r - 1] as nat),
            n,
        )
    }
}

impl Graph {
    /// The register on a walk from zero holds the bits that came in last.
    pub proof fn lemma_state_bit(self, x: Seq<bool>, j: nat)
        requires
            self.valid(),
        ensures
            self.end(0, x) >= 0,
            nat_bit(self.end(0, x) as nat, j) == (j < self.order && j < x.len() && x[x.len() - 1
                - j]),
        decreases x.len(),
    {
        if x.len() == 0 {
            lemma_zero_bits(j);
        } else {
            let y = x.drop_last();
            let s = self.end(0, y);
            self.lemma_next(s, x.last());
            self.lemma_state_bit(y, 0);
            let t = (2 * s + bit_value(x.last())) as nat;
            lemma_mod_bit(t, self.order, j);
            assert(t / 2 == s);
            if j > 0 {
                self.lemma_state_bit(y, (j - 1) as nat);
                assert(y[y.len() - 1 - (j - 1)] == y[x.len() - 1 - j]);
            }
        }
    }

    /// What a polynomial makes of the register at step `i` is a coefficient of its
    /// product with the input.
    pub proof fn lemma_output_is_product(self, x: Seq<bool>, i: int, g: nat)
        requires
            self.valid(),
            g < pow2(self.order),
            0 <= i < x.len(),
        ensures
            self.end(0, x.take(i + 1)) >= 0,
            dot(self.end(0, x.take(i + 1)) as nat, g) == nat_bit(poly_mul(number(x), g), i as nat),
    {
        let y = x.take(i + 1);
        self.lemma_state_bit(y, 0);
        let s = self.end(0, y) as nat;
        let u = number(x);
        let k = i as nat;
        lemma_dot_parity(s, g, self.order);
        lemma_product_bit(u, g, k);
        let f = |j: nat| nat_bit(s, j) && nat_bit(g, j);
        let h = |j: nat| nat_bit(g, j) && j <= k && nat_bit(u, (k - j) as nat);
        let m = if self.order >= k + 1 {
            self.order
        } else {
            k + 1
        };
        assert forall|j: nat| j < m implies #[trigger] f(j) == h(j) by {
            self.lemma_state_bit(y, j);
            if j <= k {
                lemma_number_bit(x, (k - j) as nat);
                assert(y[y.len() - 1 - j] == x[k - j]);
            }
            if j >= self.order {
                lemma_no_high_bits(g, self.order, j);
            }
        }
        lemma_parity_same(f, h, m);
        assert forall|j: nat| self.order <= j < m implies !(#[trigger] f(j)) by {
            lemma_no_high_bits(g, self.order, j);
        }
        lemma_parity_longer(f, self.order, m);
        lemma_parity_longer(h, k + 1, m);
    }

    /// The cost of a walk from zero, counted by polynomial.
    pub proof fn lemma_cost_by_poly(self, x: Seq<bool>, n: nat)
        requires
            self.valid(),
            self.fits(),
            n <= x.len(),
        ensures
            self.cost(0, x.take(n as int)) == output_ones(self.polys, number(x), n, self.rate),
        decreases n,
    {
        if n == 0 {
            assert(x.take(0) =~= Seq::<bool>::empty());
            self.lemma_no_ones(number(x), self.rate);
        } else {
            let m = (n - 1) as nat;
            self.lemma_cost_by_poly(x, m);
            assert(x.take(n as int).drop_last() =~= x.take(m as int));
            self.lemma_weight_by_poly(x, m, self.rate);
        }
    }

    proof fn lemma_no_ones(self, u: nat, r: nat)
        ensures
            output_ones(self.polys, u, 0, r) == 0,
        decreases r,
    {
        if r > 0 {
            self.lemma_no_ones(u, (r - 1) as nat);
        }
    }

    proof fn lemma_weight_by_poly(self, x: Seq<bool>, m: nat, r: nat)
        requires
            self.valid(),
            self.fits(),
            m < x.len(),
            r <= self.rate,
        ensures
            output_ones(self.polys, number(x), m + 1, r) == output_ones(
                self.polys,
                number(x),
                m,
                r,
            ) + state_weight(self.polys, self.end(0, x.take(m as int + 1)), r),
        decreases r,
    {
        if r > 0 {
            let k = (r - 1) as nat;
            self.lemma_weight_by_poly(x, m, k);
            self.lemma_output_is_product(x, m as int, self.polys[k as int] as nat);
        }
    }

    /// The walk of an input that is then flushed comes back to zero, and costs
    /// the weight of the input's output.
    pub proof fn lemma_flushed_walk(self, x: Seq<bool>) -> (w: Seq<bool>)
        requires
            self.valid(),
            self.fits(),
        ensures
            w == x + Seq::new(self.order, |i: int| false),
            number(w) == number(x),
            self.end(0, w) == 0,
            self.cost(0, w) == input_weight(self.polys, number(x), self.rate),
    {
        let z = Seq::new(self.order, |i: int| false);
        let w = x + z;
        self.lemma_join(0, x, z);
        lemma_pow2_pos(self.order);
        self.lemma_end_range(0, x);
        self.lemma_flush(self.end(0, x), self.order);
        assert forall|i: nat| #[trigger] nat_bit(number(w), i) == nat_bit(number(x), i) by {
            lemma_number_bit(w, i);
            lemma_number_bit(x, i);
        }
        lemma_same_bits(number(w), number(x));
        assert(w.take(w.len() as int) =~= w);
        self.lemma_cost_by_poly(w, w.len());
        self.lemma_whole_output(number(x), x.len(), self.rate);
        w
    }

    /// All the set bits of the outputs are within reach.
    proof fn lemma_whole_output(self, u: nat, n: nat, r: nat)
        requires
            self.valid(),
            self.fits(),
            r <= self.rate,
            exists|x: Seq<bool>| x.len() == n && u == #[trigger] number(x),
        ensures
            output_ones(self.polys, u, n + self.order, r) == input_weight(self.polys, u, r),
        decreases r,
    {
        if r > 0 {
            let k = (r - 1) as nat;
            self.lemma_whole_output(u, n, k);
            let g = self.polys[k as int] as nat;
            let x = choose|x: Seq<bool>| x.len() == n && u == #[trigger] number(x);
            assert forall|j: nat| n <= j implies !(#[trigger] nat_bit(u, j)) by {
                lemma_number_bit(x, j);
            }
            lemma_size_from_bits(u, n);
            lemma_product_size(u, g, n, self.order);
            lemma_ones_below(poly_mul(u, g), n + self.order);
        }
    }
}

/// A product of an `a`-bit and a `b`-bit polynomial has `a + b` bits at most.
pub proof fn lemma_product_size(u: nat, g: nat, a: nat, b: nat)
    requires
        u < pow2(a),
        g < pow2(b),
    ensures
        poly_mul(u, g) < pow2(a + b),
{
    lemma_mul_zero(u);
    lemma_mul_zero(g);
    lemma_pow2_pos(a + b);
    if u > 0 && g > 0 {
        let (p, q) = (lemma_degree_exists(u), lemma_degree_exists(g));
        lemma_mul_degree(u, g, p, q);
        if p >= a {
            if p > a {
                lemma_pow2_strictly_increases(a, p);
            }
        }
        if q >= b {
            if q > b {
                lemma_pow2_strictly_increases(b, q);
            }
        }
        if p + q + 1 < a + b {
            lemma_pow2_strictly_increases(p + q + 1, a + b);
        }
    }
}

/// The bits of a number, least significant first.
pub open spec fn bits(u: nat, n: nat) -> Seq<bool> {
    Seq::new(n, |i: int| nat_bit(u, i as nat))
}

pub proof fn lemma_bits(u: nat, n: nat)
    requires
        u < pow2(n),
    ensures
        number(bits(u, n)) == u,
{
    let x = bits(u, n);
    assert forall|i: nat| #[trigger] nat_bit(number(x), i) == nat_bit(u, i) by {
        lemma_number_bit(x, i);
        if i >= n {
            lemma_no_high_bits(u, n, i);
        }
    }
    lemma_same_bits(number(x), u);
}

/// An odd input leaves the zero state at once, so its output weighs at least the
/// free distance.
pub proof fn lemma_input_bounds_free_distance(g: Graph, u: nat)
    requires
        g.valid(),
        g.fits(),
        u % 2 == 1,
    ensures
        g.free_distance() <= input_weight(g.polys, u, g.rate),
{
    let n = lemma_degree_exists(u) + 1;
    let x = bits(u, n);
    lemma_bits(u, n);
    let w = g.lemma_flushed_walk(x);
    assert(w[0] == x[0]);
    g.lemma_free_distance(w);
}

} // verus!
