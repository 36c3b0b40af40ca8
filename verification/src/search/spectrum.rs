//! How many walks weigh as much as the free distance: the first term of the
//! distance spectrum.

use super::gf2::{
    coprime, lemma_add_bits, lemma_add_halves, lemma_degree_exists, lemma_mul_add_left,
    lemma_mul_associates, lemma_mul_one, lemma_mul_zero, lemma_same_bits, lemma_zero_bits,
    poly_add, poly_mul,
};
use super::shortest::{
    evaluate_free_distance, lemma_lightest, shortest_output_weight_to_zero,
};
use super::walk::{
    lemma_input_bounds_free_distance, lemma_no_high_bits, lemma_number_bit, lemma_parity_longer, lemma_product_bit, number, Graph,
};
use super::weight::{
    combination, combines, lemma_mul_add_right, lemma_mul_double_right, lemma_state_weight_bound,
    output_weight_for_state, state_weight,
};
use crate::convolutional::trellis::{dot, nat_bit};
use crate::convolutional::util;
use crate::convolutional::util::lemma_pow2_16;
use vstd::arithmetic::power2::{
    lemma_pow2_pos, lemma_pow2_strictly_increases, lemma_pow2_unfold, pow2,
};
use vstd::prelude::*;

verus! {

/// Multiplying by 1 on the right.
proof fn lemma_mul_one_right(u: nat)
    ensures
        poly_mul(u, 1) == u,
    decreases u,
{
    if u > 0 {
        lemma_mul_one_right(u / 2);
        lemma_add_halves(u % 2, 2 * (u / 2));
        lemma_add_halves(0, u / 2);
    }
}

/// Multiplication commutes.
proof fn lemma_mul_commutes(a: nat, b: nat)
    ensures
        poly_mul(a, b) == poly_mul(b, a),
    decreases a,
{
    if a == 0 {
        lemma_mul_zero(b);
    } else {
        let h = a / 2;
        lemma_mul_commutes(h, b);
        lemma_add_halves(a % 2, 2 * h);
        lemma_add_halves(0, h);
        assert(a == poly_add(a % 2, 2 * h));
        lemma_mul_add_right(b, a % 2, 2 * h);
        lemma_mul_double_right(b, h);
        lemma_mul_zero(b);
        lemma_mul_one_right(b);
    }
}

/// `x` over and over.
pub open spec fn repeated(x: Seq<bool>, n: nat) -> Seq<bool>
    decreases n,
{
    if n == 0 {
        Seq::empty()
    } else {
        repeated(x, (n - 1) as nat) + x
    }
}

/// Coefficients are of limited size.
spec fn coefficients_fit(c: Seq<nat>, n: nat, d: nat) -> bool {
    forall|k: int| 0 <= k < n ==> #[trigger] c[k] < pow2(d)
}

proof fn lemma_coefficients_fit(c: Seq<nat>, n: nat) -> (d: nat)
    requires
        n <= c.len(),
    ensures
        coefficients_fit(c, n, d),
    decreases n,
{
    if n == 0 {
        0
    } else {
        let e = lemma_coefficients_fit(c, (n - 1) as nat);
        let v = c[n - 1];
        let f = if v == 0 {
            0
        } else {
            lemma_degree_exists(v) + 1
        };
        lemma_pow2_pos(0);
        let d = if e >= f {
            e
        } else {
            f
        };
        if e < d {
            lemma_pow2_strictly_increases(e, d);
        }
        if f < d {
            lemma_pow2_strictly_increases(f, d);
        }
        d
    }
}

impl Graph {
    /// No walk around a cycle of nonzero states is free of charge.
    pub open spec fn no_idle_cycle(self) -> bool {
        forall|s: int, x: Seq<bool>|
            0 < s < self.num_states() && x.len() > 0 && #[trigger] self.end(s, x) == s
                ==> self.cost(s, x) > 0
    }

    proof fn lemma_repeated(self, s: int, x: Seq<bool>, n: nat)
        requires
            self.end(s, x) == s,
            self.cost(s, x) == 0,
        ensures
            self.end(s, repeated(x, n)) == s,
            self.cost(s, repeated(x, n)) == 0,
            repeated(x, n).len() == n * x.len(),
        decreases n,
    {
        if n > 0 {
            let m = (n - 1) as nat;
            self.lemma_repeated(s, x, m);
            self.lemma_join(s, repeated(x, m), x);
            let l = x.len();
            assert(n * l == m * l + l) by (nonlinear_arith)
                requires
                    n == m + 1,
            ;
        } else {
            assert(0 * x.len() == 0);
        }
    }

    /// Part of a walk without cost has none either.
    proof fn lemma_free_prefix(self, s: int, x: Seq<bool>, i: int)
        requires
            self.cost(s, x) == 0,
            0 <= i <= x.len(),
        ensures
            self.cost(s, x.take(i)) == 0,
    {
        self.lemma_join(s, x.take(i), x.skip(i));
        assert(x.take(i) + x.skip(i) =~= x);
    }

    /// The bits that bring the register from zero to `s`.
    proof fn lemma_load(self, s: int) -> (y: Seq<bool>)
        requires
            self.valid(),
            0 <= s < self.num_states(),
        ensures
            y.len() == self.order,
            self.end(0, y) == s,
    {
        let y = Seq::new(
            self.order,
            |i: int| nat_bit(s as nat, (self.order - 1 - i) as nat),
        );
        self.lemma_state_bit(y, 0);
        let t = self.end(0, y) as nat;
        assert forall|j: nat| #[trigger] nat_bit(t, j) == nat_bit(s as nat, j) by {
            self.lemma_state_bit(y, j);
            if j >= self.order {
                lemma_no_high_bits(s as nat, self.order, j);
            }
        }
        lemma_same_bits(t, s as nat);
        y
    }

    /// No output in a stretch means no set bits of the products there.
    proof fn lemma_silent(self, w: Seq<bool>, i: int, k: int)
        requires
            self.valid(),
            self.fits(),
            0 <= i < w.len(),
            0 <= k < self.rate,
            self.weight(self.end(0, w.take(i + 1))) == 0,
        ensures
            !nat_bit(poly_mul(number(w), self.polys[k] as nat), i as nat),
    {
        self.lemma_output_is_product(w, i, self.polys[k] as nat);
        lemma_no_weight(self.polys, self.end(0, w.take(i + 1)), self.rate, k);
    }

    /// Where nothing divides all the polynomials, a cycle of nonzero states puts
    /// something out: the input can be computed from the outputs, so if they stay
    /// zero for long enough then so does it.
    pub proof fn lemma_no_idle_cycle(self)
        requires
            self.valid(),
            self.fits(),
            combines(1, self.polys, self.polys.len()),
        ensures
            self.no_idle_cycle(),
    {
        assert forall|s: int, x: Seq<bool>|
            0 < s < self.num_states() && x.len() > 0 && #[trigger] self.end(s, x)
                == s implies self.cost(s, x) > 0 by {
            if self.cost(s, x) == 0 {
                self.lemma_idle_cycle_is_zero(s, x);
            }
        }
    }

    proof fn lemma_idle_cycle_is_zero(self, s: int, x: Seq<bool>)
        requires
            self.valid(),
            self.fits(),
            combines(1, self.polys, self.polys.len()),
            0 <= s < self.num_states(),
            x.len() > 0,
            self.end(s, x) == s,
            self.cost(s, x) == 0,
        ensures
            s == 0,
    {
        let r = self.rate;
        let c = choose|c: Seq<nat>|
            c.len() == r && 1 == #[trigger] combination(c, self.polys, r);
        let d = lemma_coefficients_fit(c, r);
        let turns = self.order + d;
        let z = repeated(x, turns);
        self.lemma_repeated(s, x, turns);
        let l = x.len();
        assert(turns * l >= turns) by (nonlinear_arith)
            requires
                l >= 1,
        ;
        let y = self.lemma_load(s);
        let w = y + z;
        self.lemma_join(0, y, z);
        let u = number(w);
        // past the loading, nothing is put out
        assert forall|j: nat, k: int| self.order <= j < w.len() && 0 <= k < r implies !(
        #[trigger] nat_bit(poly_mul(u, self.polys[k] as nat), j)) by {
            let i = j as int;
            let part = z.take(i + 1 - self.order);
            assert(w.take(i + 1) =~= y + part);
            self.lemma_join(0, y, part);
            self.lemma_free_prefix(s, z, i + 1 - self.order);
            assert(part.len() > 0);
            assert(self.weight(self.end(s, part)) == 0);
            self.lemma_silent(w, i, k);
        }
        // so the input is silent too, once the coefficients have caught up
        assert forall|i: int| self.order + d <= i < w.len() implies !(#[trigger] nat_bit(
            u,
            i as nat,
        )) by {
            self.lemma_input_from_outputs(c, u, r, d, w.len() as int, i);
            lemma_mul_one(u);
        }
        // and the state that it ends in is zero
        self.lemma_state_bit(w, 0);
        assert forall|j: nat| #[trigger] nat_bit(s as nat, j) == nat_bit(0, j) by {
            self.lemma_state_bit(w, j);
            lemma_zero_bits(j);
            if j < self.order {
                let i = w.len() - 1 - j;
                lemma_number_bit(w, i as nat);
                assert(!nat_bit(u, i as nat));
            }
        }
        lemma_same_bits(s as nat, 0);
    }

    /// A bit of a combination of the outputs, in a stretch where they are zero.
    proof fn lemma_input_from_outputs(
        self,
        c: Seq<nat>,
        u: nat,
        n: nat,
        d: nat,
        len: int,
        i: int,
    )
        requires
            n <= c.len(),
            n <= self.polys.len(),
            coefficients_fit(c, n, d),
            self.order + d <= i < len,
            forall|j: nat, k: int|
                self.order <= j < len && 0 <= k < n ==> !(#[trigger] nat_bit(
                    poly_mul(u, self.polys[k] as nat),
                    j,
                )),
        ensures
            !nat_bit(poly_mul(combination(c, self.polys, n), u), i as nat),
        decreases n,
    {
        if n == 0 {
            lemma_mul_zero(u);
            lemma_zero_bits(i as nat);
        } else {
            let m = (n - 1) as nat;
            self.lemma_input_from_outputs(c, u, m, d, len, i);
            let g = self.polys[m as int] as nat;
            let e = c[m as int];
            lemma_mul_add_left(combination(c, self.polys, m), poly_mul(e, g), u);
            lemma_mul_associates(e, g, u);
            lemma_mul_commutes(g, u);
            let p = poly_mul(u, g);
            lemma_product_bit(e, p, i as nat);
            let f = |j: nat| nat_bit(p, j) && j <= i as nat && nat_bit(e, (i - j) as nat);
            assert forall|j: nat| 0 <= j < (i + 1) as nat implies !(#[trigger] f(j)) by {
                if j >= self.order {
                    assert(!nat_bit(poly_mul(u, self.polys[m as int] as nat), j));
                } else {
                    lemma_no_high_bits(e, d, (i - j) as nat);
                }
            }
            lemma_parity_longer(f, 0, (i + 1) as nat);
            lemma_add_bits(
                poly_mul(combination(c, self.polys, m), u),
                poly_mul(poly_mul(e, g), u),
                i as nat,
            );
        }
    }

    /// How many walks from `s` of up to `k` steps cost `w` and come to zero at
    /// their end, not before.
    pub open spec fn paths(self, s: int, w: int, k: nat) -> nat
        decreases k,
    {
        if k == 0 {
            0
        } else {
            self.paths_via(s, false, w, k) + self.paths_via(s, true, w, k)
        }
    }

    /// Those that start with the bit `b`.
    pub open spec fn paths_via(self, s: int, b: bool, w: int, k: nat) -> nat
        decreases k, 0int,
            when k > 0
    {
        let q = self.next(s, b);
        let v = w - self.weight(q);
        if v < 0 {
            0
        } else if q == 0 {
            if v == 0 {
                1
            } else {
                0
            }
        } else {
            self.paths(q, v, (k - 1) as nat)
        }
    }
}

proof fn lemma_no_weight(polys: Seq<u16>, state: int, n: nat, k: int)
    requires
        state_weight(polys, state, n) == 0,
        0 <= k < n,
    ensures
        !dot(state as nat, polys[k] as nat),
    decreases n,
{
    if k < n - 1 {
        lemma_no_weight(polys, state, (n - 1) as nat, k);
    }
}

/// Among as many values in `1..n` as `n`, two are the same.
proof fn lemma_pigeonhole(v: Seq<int>, n: int) -> (r: (int, int))
    requires
        n >= 1,
        v.len() >= n,
        forall|i: int| 0 <= i < v.len() ==> 1 <= #[trigger] v[i] < n,
    ensures
        0 <= r.0 < r.1 < v.len(),
        v[r.0] == v[r.1],
{
    if v.no_duplicates() {
        v.unique_seq_to_set();
        vstd::set_lib::lemma_int_range(1, n);
        assert(v.to_set().subset_of(vstd::set_lib::set_int_range(1, n))) by {
            assert forall|x: int| v.to_set().contains(x) implies vstd::set_lib::set_int_range(
                1,
                n,
            ).contains(x) by {
                let i = choose|i: int| 0 <= i < v.len() && v[i] == x;
                assert(1 <= v[i] < n);
            }
        }
        vstd::set_lib::lemma_len_subset(v.to_set(), vstd::set_lib::set_int_range(1, n));
        (0, 1)
    } else {
        let (i, j) = choose|i: int, j: int|
            0 <= i < v.len() && 0 <= j < v.len() && i != j && v[i] == v[j];
        if i < j {
            (i, j)
        } else {
            (j, i)
        }
    }
}

impl Graph {
    /// A walk from `s` that enters nonzero states only.
    pub open spec fn stays_out(self, s: int, x: Seq<bool>) -> bool {
        forall|i: int| 0 < i <= x.len() ==> #[trigger] self.end(s, x.take(i)) != 0
    }

    /// Part of a walk that stays out.
    proof fn lemma_stays_out_part(self, s: int, x: Seq<bool>, i: int, j: int)
        requires
            self.stays_out(s, x),
            0 <= i <= j <= x.len(),
        ensures
            self.stays_out(self.end(s, x.take(i)), x.subrange(i, j)),
            self.end(self.end(s, x.take(i)), x.subrange(i, j)) == self.end(s, x.take(j)),
            self.cost(s, x.take(j)) == self.cost(s, x.take(i)) + self.cost(
                self.end(s, x.take(i)),
                x.subrange(i, j),
            ),
    {
        let y = x.subrange(i, j);
        assert forall|m: int| 0 < m <= y.len() implies #[trigger] self.end(
            self.end(s, x.take(i)),
            y.take(m),
        ) != 0 by {
            assert(x.take(i) + y.take(m) =~= x.take(i + m));
            self.lemma_join(s, x.take(i), y.take(m));
            assert(self.end(s, x.take(i + m)) != 0);
        }
        assert(x.take(i) + y =~= x.take(j));
        self.lemma_join(s, x.take(i), y);
    }

    /// As many steps as there are states, all outside zero, cost something.
    proof fn lemma_round_costs(self, s: int, x: Seq<bool>)
        requires
            self.valid(),
            self.no_idle_cycle(),
            0 <= s < self.num_states(),
            self.stays_out(s, x),
            x.len() >= self.num_states(),
        ensures
            self.cost(s, x) >= 1,
    {
        let n = self.num_states();
        let v = Seq::new(x.len(), |i: int| self.end(s, x.take(i + 1)));
        assert forall|i: int| 0 <= i < v.len() implies 1 <= #[trigger] v[i] < n by {
            self.lemma_end_range(s, x.take(i + 1));
            assert(self.end(s, x.take(i + 1)) != 0);
        }
        lemma_pow2_pos(self.order);
        let (i, j) = lemma_pigeonhole(v, n);
        self.lemma_stays_out_part(s, x, i + 1, j + 1);
        let t = v[i];
        let y = x.subrange(i + 1, j + 1);
        assert(self.end(t, y) == t);
        assert(self.cost(t, y) > 0);
        self.lemma_stays_out_part(s, x, j + 1, x.len() as int);
        assert(x.take(x.len() as int) =~= x);
    }

    /// Long walks outside zero are expensive.
    proof fn lemma_long_walk_costs(self, s: int, x: Seq<bool>, m: nat)
        requires
            self.valid(),
            self.no_idle_cycle(),
            0 <= s < self.num_states(),
            self.stays_out(s, x),
            x.len() >= m * self.num_states(),
        ensures
            self.cost(s, x) >= m,
        decreases m,
    {
        if m > 0 {
            let n = self.num_states();
            let k = (m - 1) as nat;
            lemma_pow2_pos(self.order);
            assert(k * n >= 0 && m * n == k * n + n) by (nonlinear_arith)
                requires
                    m == k + 1,
                    n >= 0,
            ;
            let at = x.len() - n;
            assert(x.take(0) =~= Seq::<bool>::empty());
            self.lemma_stays_out_part(s, x, 0, at);
            assert(x.subrange(0, at) =~= x.take(at));
            self.lemma_long_walk_costs(s, x.take(at), k);
            self.lemma_stays_out_part(s, x, at, x.len() as int);
            self.lemma_end_range(s, x.take(at));
            self.lemma_round_costs(self.end(s, x.take(at)), x.subrange(at, x.len() as int));
            assert(x.take(x.len() as int) =~= x);
        }
    }

    /// No walk that counts takes more steps than this.
    pub open spec fn longest(self, w: int) -> nat {
        ((w + 1) * self.num_states() + 1) as nat
    }

    /// The number of walks from zero back to zero that cost `w`.
    pub open spec fn path_count(self, w: nat) -> nat {
        self.paths(0, w as int, self.longest(w as int))
    }

    /// A walk outside zero that costs `w` at most is shorter than the longest.
    pub proof fn lemma_walk_short(self, x: Seq<bool>, w: int)
        requires
            self.valid(),
            self.no_idle_cycle(),
            self.stays_out(0, x),
            self.cost(0, x) <= w,
        ensures
            x.len() + 1 < self.longest(w),
    {
        lemma_pow2_pos(self.order);
        if x.len() >= (w + 1) * self.num_states() {
            self.lemma_long_walk_costs(0, x, (w + 1) as nat);
        }
    }

    /// One more step on a walk outside zero.
    proof fn lemma_extend(self, x: Seq<bool>, b: bool)
        requires
            self.stays_out(0, x),
        ensures
            self.end(0, x.push(b)) == self.next(self.end(0, x), b),
            self.cost(0, x.push(b)) == self.cost(0, x) + self.weight(
                self.next(self.end(0, x), b),
            ),
            self.end(0, x.push(b)) != 0 ==> self.stays_out(0, x.push(b)),
    {
        let y = x.push(b);
        assert(y.drop_last() =~= x);
        if self.end(0, y) != 0 {
            assert forall|i: int| 0 < i <= y.len() implies #[trigger] self.end(0, y.take(i))
                != 0 by {
                if i <= x.len() {
                    assert(y.take(i) =~= x.take(i));
                    assert(self.end(0, x.take(i)) != 0);
                } else {
                    assert(y.take(i) =~= y);
                }
            }
        }
    }

    /// Allowing more steps than the longest walk has finds no further walks.
    proof fn lemma_paths_stable(self, x: Seq<bool>, w: int, k: nat)
        requires
            self.valid(),
            self.no_idle_cycle(),
            self.stays_out(0, x),
            self.cost(0, x) <= w,
            x.len() + k >= self.longest(w),
        ensures
            self.paths(self.end(0, x), w - self.cost(0, x), k) == self.paths(
                self.end(0, x),
                w - self.cost(0, x),
                k + 1,
            ),
        decreases k,
    {
        self.lemma_walk_short(x, w);
        let (s, v) = (self.end(0, x), w - self.cost(0, x));
        self.lemma_paths_stable_via(x, w, k, false);
        self.lemma_paths_stable_via(x, w, k, true);
        assert(self.paths(s, v, k + 1) == self.paths_via(s, false, v, k + 1) + self.paths_via(
            s,
            true,
            v,
            k + 1,
        ));
    }

    proof fn lemma_paths_stable_via(self, x: Seq<bool>, w: int, k: nat, b: bool)
        requires
            self.valid(),
            self.no_idle_cycle(),
            self.stays_out(0, x),
            self.cost(0, x) <= w,
            x.len() + k >= self.longest(w),
            k > 0,
        ensures
            self.paths_via(self.end(0, x), b, w - self.cost(0, x), k) == self.paths_via(
                self.end(0, x),
                b,
                w - self.cost(0, x),
                k + 1,
            ),
        decreases k, 0int,
    {
        let s = self.end(0, x);
        let q = self.next(s, b);
        let v = w - self.cost(0, x) - self.weight(q);
        self.lemma_extend(x, b);
        if v >= 0 && q != 0 {
            self.lemma_paths_stable(x.push(b), w, (k - 1) as nat);
        }
    }

    /// The count does not depend on how many steps are allowed, once they are
    /// enough.
    pub proof fn lemma_path_count(self, w: nat, k: nat)
        requires
            self.valid(),
            self.no_idle_cycle(),
            k >= self.longest(w as int),
        ensures
            self.paths(0, w as int, k) == self.path_count(w),
        decreases k,
    {
        if k > self.longest(w as int) {
            let m = (k - 1) as nat;
            self.lemma_path_count(w, m);
            let x = Seq::<bool>::empty();
            assert(self.stays_out(0, x));
            self.lemma_paths_stable(x, w as int, m);
        }
    }

    /// Where there are paths, there is a walk of that cost to zero.
    proof fn lemma_some_path(self, s: int, w: int, k: nat) -> (x: Seq<bool>)
        requires
            self.paths(s, w, k) > 0,
        ensures
            x.len() > 0,
            self.end(s, x) == 0,
            self.cost(s, x) == w,
        decreases k,
    {
        let b = self.paths_via(s, true, w, k) > 0;
        assert(self.paths_via(s, b, w, k) > 0);
        let q = self.next(s, b);
        let v = w - self.weight(q);
        if q == 0 {
            let y = Seq::<bool>::empty();
            self.lemma_prepend(s, b, y);
            seq![b] + y
        } else {
            let y = self.lemma_some_path(q, v, (k - 1) as nat);
            self.lemma_prepend(s, b, y);
            seq![b] + y
        }
    }

    /// States whose least entry is too high lead nowhere.
    proof fn lemma_pruned(self, s: int, w: int, k: nat, entry: int, cap: int)
        requires
            self.undercuts(s, entry, cap),
            w < entry,
            w <= cap,
        ensures
            self.paths(s, w, k) == 0,
    {
        if self.paths(s, w, k) > 0 {
            let x = self.lemma_some_path(s, w, k);
            self.lemma_first(s, x);
            assert(self.within(s, x, cap));
        }
    }
}

/// A power of three.
spec fn pow3(k: nat) -> nat
    decreases k,
{
    if k == 0 {
        1
    } else {
        3 * pow3((k - 1) as nat)
    }
}

proof fn lemma_pow3(k: nat)
    ensures
        pow3(k) >= 1,
    decreases k,
{
    if k > 0 {
        lemma_pow3((k - 1) as nat);
    }
}

/// What is left to do for the walks on the stack.
spec fn effort(limit: nat, walks: Seq<Seq<bool>>) -> nat
    decreases walks.len(),
{
    if walks.len() == 0 {
        0
    } else {
        effort(limit, walks.drop_last()) + pow3((limit - walks.last().len()) as nat)
    }
}

/// How many paths continue the walks on the stack.
spec fn open_paths(g: Graph, w: int, limit: nat, walks: Seq<Seq<bool>>) -> nat
    decreases walks.len(),
{
    if walks.len() == 0 {
        0
    } else {
        let x = walks.last();
        open_paths(g, w, limit, walks.drop_last()) + g.paths(
            g.end(0, x),
            w - g.cost(0, x),
            (limit - x.len()) as nat,
        )
    }
}

/// The stack holds where these walks end and what they cost.
spec fn is_stack(g: Graph, w: int, stack: Seq<(u32, u32)>, walks: Seq<Seq<bool>>) -> bool {
    &&& stack.len() == walks.len()
    &&& forall|i: int|
        0 <= i < stack.len() ==> {
            let x = #[trigger] walks[i];
            &&& g.stays_out(0, x)
            &&& stack[i].0 == g.end(0, x)
            &&& stack[i].1 == g.cost(0, x)
            &&& g.cost(0, x) <= w
        }
}

proof fn lemma_push(
    g: Graph,
    w: int,
    limit: nat,
    stack: Seq<(u32, u32)>,
    walks: Seq<Seq<bool>>,
    entry: (u32, u32),
    x: Seq<bool>,
)
    requires
        is_stack(g, w, stack, walks),
        g.stays_out(0, x),
        entry.0 == g.end(0, x),
        entry.1 == g.cost(0, x),
        g.cost(0, x) <= w,
    ensures
        is_stack(g, w, stack.push(entry), walks.push(x)),
        effort(limit, walks.push(x)) == effort(limit, walks) + pow3((limit - x.len()) as nat),
        open_paths(g, w, limit, walks.push(x)) == open_paths(g, w, limit, walks) + g.paths(
            g.end(0, x),
            w - g.cost(0, x),
            (limit - x.len()) as nat,
        ),
{
    assert(walks.push(x).drop_last() =~= walks);
    let (s2, w2) = (stack.push(entry), walks.push(x));
    assert forall|i: int| 0 <= i < s2.len() implies {
        let y = #[trigger] w2[i];
        &&& g.stays_out(0, y)
        &&& s2[i].0 == g.end(0, y)
        &&& s2[i].1 == g.cost(0, y)
        &&& g.cost(0, y) <= w
    } by {
        if i < stack.len() {
            assert(w2[i] == walks[i]);
        }
    }
}

/// The number of walks that leave state 0 and come back to it with output weight
/// `d_free`.
///
/// This is the first term of the distance spectrum. More such walks are worse:
/// they leave the decoder more ambiguity.
pub fn evaluate_a_dfree(rate: u32, order: u32, polys: &[u16], d_free: u32) -> (a_dfree: u64)
    requires
        1 <= order <= 16,
        polys@.len() == rate,
        d_free + rate < 65535,
        ({
            let g = Graph { rate: rate as nat, order: order as nat, polys: polys@ };
            g.no_idle_cycle() && g.path_count(d_free as nat) <= u64::MAX
        }),
    ensures
        a_dfree == (Graph {
            rate: rate as nat,
            order: order as nat,
            polys: polys@,
        }).path_count(d_free as nat),
{
    match count_walks(rate, order, polys, d_free) {
        Some(a_dfree) => a_dfree,
        None => 0,
    }
}

/// The free distance of a code and the number of walks of that weight. `None` if
/// the code is catastrophic, or if there are more walks than 64 bits can count.
pub fn evaluate_spectrum(rate: u32, order: u32, polys: &[u16]) -> (spectrum: Option<(u32, u64)>)
    requires
        1 <= order <= 16,
        1 <= rate,
        17 * rate < 65535,
        polys@.len() == rate,
        forall|i: int| 0 <= i < polys@.len() ==> #[trigger] polys@[i] < pow2(order as nat),
    ensures
        ({
            let g = Graph { rate: rate as nat, order: order as nat, polys: polys@ };
            let d = g.free_distance();
            spectrum == if coprime(polys@) && g.path_count(d) <= u64::MAX {
                Some((d as u32, g.path_count(d) as u64))
            } else {
                None::<(u32, u64)>
            }
        }),
        spectrum matches Some((d, a)) ==> d == (Graph {
            rate: rate as nat,
            order: order as nat,
            polys: polys@,
        }).free_distance(),
{
    let ghost g = Graph { rate: rate as nat, order: order as nat, polys: polys@ };
    match evaluate_free_distance(rate, order, polys) {
        None => None,
        Some(d_free) => {
            proof {
                assert(g.fits());
                g.lemma_no_idle_cycle();
                lemma_input_bounds_free_distance(g, 1);
                lemma_lightest(polys@, polys@.len());
            }
            match count_walks(rate, order, polys, d_free) {
                Some(a_dfree) => Some((d_free, a_dfree)),
                None => None,
            }
        },
    }
}

/// The number of walks from state 0 back to it with output weight `d_free`, or
/// `None` if there are more than 64 bits can count.
#[verifier::rlimit(40)]
pub fn count_walks(rate: u32, order: u32, polys: &[u16], d_free: u32) -> (count: Option<u64>)
    requires
        1 <= order <= 16,
        polys@.len() == rate,
        d_free + rate < 65535,
        (Graph { rate: rate as nat, order: order as nat, polys: polys@ }).no_idle_cycle(),
    ensures
        ({
            let walks = (Graph {
                rate: rate as nat,
                order: order as nat,
                polys: polys@,
            }).path_count(d_free as nat);
            count == if walks <= u64::MAX {
                Some(walks as u64)
            } else {
                None::<u64>
            }
        }),
{
    let ghost g = Graph { rate: rate as nat, order: order as nat, polys: polys@ };
    let ghost w = d_free as int;
    let ghost limit = g.longest(w);
    proof {
        lemma_pow2_16(order as nat);
        lemma_pow2_unfold(order as nat);
        lemma_pow2_pos((order - 1) as nat);
    }
    // no target here: the whole table is needed
    let to_zero: Vec<u16> = shortest_output_weight_to_zero(order, rate, polys, d_free, None);
    let num_states: u32 = util::num_states_for_order(order);
    let mut a_dfree: u64 = 0;
    let mut stack: Vec<(u32, u32)> = Vec::new();
    stack.push((0, 0));
    let ghost mut walks: Seq<Seq<bool>> = seq![Seq::<bool>::empty()];
    proof {
        let none = Seq::<bool>::empty();
        assert(g.stays_out(0, none));
        assert(walks.drop_last() =~= Seq::<Seq<bool>>::empty());
        assert(open_paths(g, w, limit, walks.drop_last()) == 0);
        assert(stack@ =~= seq![(0u32, 0u32)]);
        assert(is_stack(g, w, stack@, walks)) by {
            assert forall|i: int| 0 <= i < stack@.len() implies {
                let x = #[trigger] walks[i];
                &&& g.stays_out(0, x)
                &&& stack@[i].0 == g.end(0, x)
                &&& stack@[i].1 == g.cost(0, x)
                &&& g.cost(0, x) <= w
            } by {
                assert(walks[i] == none);
            }
        }
    }
    while stack.len() > 0
        invariant
            g == (Graph { rate: rate as nat, order: order as nat, polys: polys@ }),
            g.valid(),
            g.no_idle_cycle(),
            w == d_free,
            w + rate < 65535,
            limit == g.longest(w),
            polys@.len() == rate,
            num_states == g.num_states(),
            num_states <= 65536,
            to_zero@.len() == num_states,
            forall|s: int|
                0 <= s < g.num_states() ==> g.undercuts(s, #[trigger] to_zero@[s] as int, w),
            is_stack(g, w, stack@, walks),
            a_dfree + open_paths(g, w, limit, walks) == g.path_count(d_free as nat),
        decreases effort(limit, walks),
    {
        let ghost old_stack = stack@;
        let top: usize = stack.len() - 1;
        let (state, weight): (u32, u32) = stack[top];
        stack.pop();
        let ghost x = walks.last();
        let ghost old_walks = walks;
        let ghost k = (limit - x.len()) as nat;
        proof {
            assert(walks[walks.len() - 1] == x);
            g.lemma_walk_short(x, w);
            lemma_pow2_pos(g.order);
            g.lemma_end_range(0, x);
            walks = walks.drop_last();
            assert(stack@ =~= old_stack.drop_last());
            assert forall|i: int| 0 <= i < stack@.len() implies {
                let y = #[trigger] walks[i];
                &&& g.stays_out(0, y)
                &&& stack@[i].0 == g.end(0, y)
                &&& stack@[i].1 == g.cost(0, y)
                &&& g.cost(0, y) <= w
            } by {
                assert(walks[i] == old_walks[i]);
            }
            lemma_pow3((k - 1) as nat);
            assert(pow3(k) == 3 * pow3((k - 1) as nat));
            assert(g.undercuts(state as int, to_zero@[state as int] as int, w));
        }
        if weight + to_zero[state as usize] as u32 > d_free {
            proof {
                g.lemma_pruned(
                    state as int,
                    w - weight,
                    k,
                    to_zero@[state as int] as int,
                    w,
                );
            }
            continue ;
        }
        let mut bit: u32 = 0;
        let ghost base_effort = effort(limit, walks);
        let ghost base_paths = open_paths(g, w, limit, walks);
        let ghost done = a_dfree;
        while bit < 2
            invariant
                bit <= 2,
                g == (Graph { rate: rate as nat, order: order as nat, polys: polys@ }),
                g.valid(),
                g.no_idle_cycle(),
                w == d_free,
                w + rate < 65535,
                limit == g.longest(w),
                polys@.len() == rate,
                num_states == g.num_states(),
                num_states <= 65536,
                to_zero@.len() == num_states,
                forall|s: int|
                    0 <= s < g.num_states() ==> g.undercuts(
                        s,
                        #[trigger] to_zero@[s] as int,
                        w,
                    ),
                g.stays_out(0, x),
                state == g.end(0, x),
                state < num_states,
                weight == g.cost(0, x),
                weight <= d_free,
                k == limit - x.len(),
                k >= 2,
                pow3((k - 1) as nat) >= 1,
                is_stack(g, w, stack@, walks),
                effort(limit, walks) <= base_effort + bit * pow3((k - 1) as nat),
                a_dfree + open_paths(g, w, limit, walks) == done + base_paths + (if bit >= 1 {
                    g.paths_via(state as int, false, w - weight, k)
                } else {
                    0
                }) + (if bit >= 2 {
                    g.paths_via(state as int, true, w - weight, k)
                } else {
                    0
                }),
                done + base_paths + g.paths(state as int, w - weight, k) == g.path_count(
                    d_free as nat,
                ),
            decreases 2 - bit,
        {
            let ghost b = bit == 1;
            let next_state: u32 = (2 * state + bit) % num_states;
            let ghost y = x.push(b);
            let ghost j = (k - 1) as nat;
            proof {
                g.lemma_extend(x, b);
                g.lemma_next(state as int, b);
                lemma_state_weight_bound(g.polys, next_state as int, g.rate);
                assert((bit + 1) * pow3(j) == bit * pow3(j) + pow3(j)) by (nonlinear_arith);
                assert(g.paths(state as int, w - weight, k) == g.paths_via(
                    state as int,
                    false,
                    w - weight,
                    k,
                ) + g.paths_via(state as int, true, w - weight, k));
            }
            let next_weight: u32 = weight + output_weight_for_state(next_state, rate, polys);
            if next_state == 0 {
                if next_weight == d_free {
                    if a_dfree == u64::MAX {
                        return None;
                    }
                    a_dfree = a_dfree + 1;
                }
            } else {
                assert(g.undercuts(next_state as int, to_zero@[next_state as int] as int, w));
                if next_weight + to_zero[next_state as usize] as u32 <= d_free {
                    proof {
                        lemma_push(
                            g,
                            w,
                            limit,
                            stack@,
                            walks,
                            (next_state, next_weight),
                            y,
                        );
                        walks = walks.push(y);
                    }
                    stack.push((next_state, next_weight));
                } else if next_weight <= d_free {
                    proof {
                        g.lemma_pruned(
                            next_state as int,
                            w - next_weight,
                            j,
                            to_zero@[next_state as int] as int,
                            w,
                        );
                    }
                }
            }
            bit = bit + 1;
        }
    }
    Some(a_dfree)
}

} // verus!
