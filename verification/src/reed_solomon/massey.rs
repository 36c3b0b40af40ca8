//! The Berlekamp-Massey algorithm as a function on sequences, and why it finds
//! the error locator.
//!
//! A locator `c` of length `l` generates the syndromes `s` up to index `i` when
//! every product coefficient `conv(c, s, k)` with `l <= k < i` is zero. The
//! algorithm extends `i` one syndrome at a time. Where the next coefficient is
//! not zero, it cancels it with a shifted multiple of an earlier locator, the
//! one that failed when the length last grew.

use super::galois::{
    gf_div, gf_inv, gf_mul, gf_pow, is_primitive, lemma_div, lemma_inv, lemma_inv_injective,
    lemma_mul_associates, lemma_mul_commutes, lemma_mul_distributes, lemma_mul_nonzero,
    lemma_mul_zero_one, lemma_pow_add, lemma_pow_inv, lemma_pow_nonzero, lemma_xor,
};
use super::poly_model::{
    coef, conv, conv_terms, eval_terms, lemma_eval_extend, lemma_eval_same, poly_eval,
};
use super::sums::{
    gf_sum, lemma_sum_add, lemma_sum_ext, lemma_sum_scale, lemma_sum_split, lemma_sum_swap,
    lemma_sum_zero_tail,
};
use super::vandermonde::{distinct, lemma_root_bound, lemma_vandermonde, power_sum, power_terms};
use vstd::prelude::*;

verus! {

/// The state of the algorithm between two syndromes.
pub struct Massey {
    /// The current locator, with its constant term first.
    pub locator: Seq<u8>,
    /// Its length: the number of errors it stands for.
    pub length: nat,
    /// The locator from before the length last grew.
    pub last: Seq<u8>,
    /// Its length.
    pub last_length: nat,
    /// The discrepancy on which it failed.
    pub last_discrepancy: u8,
    /// How far it has to be shifted to line up with the current syndrome.
    pub delay: nat,
}

/// The polynomial 1 in `n + 1` coefficients.
pub open spec fn one_poly(n: nat) -> Seq<u8> {
    Seq::new(
        n + 1,
        |i: int|
            if i == 0 {
                1u8
            } else {
                0u8
            },
    )
}

pub open spec fn massey_start(n: nat) -> Massey {
    Massey {
        locator: one_poly(n),
        length: 0,
        last: one_poly(n),
        last_length: 0,
        last_discrepancy: 1,
        delay: 1,
    }
}

/// What the current locator makes of syndrome `i`.
pub open spec fn discrepancy(p: u16, s: Seq<u8>, st: Massey, i: int) -> u8 {
    s[i] ^ gf_sum(st.length, |j: int| gf_mul(p, st.locator[j + 1], s[i - (j + 1)]))
}

/// `c + (d / last_discrepancy) * x^delay * last`.
pub open spec fn adjusted(p: u16, st: Massey, d: u8) -> Seq<u8> {
    Seq::new(
        st.locator.len(),
        |k: int|
            st.locator[k] ^ gf_div(
                p,
                gf_mul(p, coef(st.last, k - st.delay), d),
                st.last_discrepancy,
            ),
    )
}

/// One step of the algorithm, on syndrome `i`.
pub open spec fn massey_step(p: u16, s: Seq<u8>, st: Massey, i: int) -> Massey {
    let d = discrepancy(p, s, st, i);
    if d == 0 {
        Massey { delay: st.delay + 1, ..st }
    } else if 2 * st.length <= i {
        Massey {
            locator: adjusted(p, st, d),
            length: (i + 1 - st.length) as nat,
            last: st.locator,
            last_length: st.length,
            last_discrepancy: d,
            delay: 1,
        }
    } else {
        Massey { locator: adjusted(p, st, d), delay: st.delay + 1, ..st }
    }
}

/// The state after the first `i` syndromes, with locators of `n + 1`
/// coefficients.
pub open spec fn massey(p: u16, s: Seq<u8>, n: nat, i: nat) -> Massey
    decreases i,
{
    if i == 0 {
        massey_start(n)
    } else {
        massey_step(p, s, massey(p, s, n, (i - 1) as nat), i - 1)
    }
}

/// Sizes, and what they have to do with each other.
pub open spec fn massey_shape(st: Massey, n: nat, i: nat) -> bool {
    &&& st.locator.len() == n + 1
    &&& st.last.len() == n + 1
    &&& st.locator[0] == 1
    &&& st.length <= i
    &&& st.length <= n
    &&& st.last_length <= n
    &&& st.delay >= 1
    &&& st.last_discrepancy != 0
    &&& st.length + st.last_length + st.delay == i + 1
    &&& forall|k: int| st.length < k <= n ==> #[trigger] st.locator[k] == 0
    &&& forall|k: int| st.last_length < k <= n ==> #[trigger] st.last[k] == 0
}

/// The current locator generates the first `i` syndromes, and the last one
/// failed where it is said to have failed.
pub open spec fn massey_generates(p: u16, s: Seq<u8>, st: Massey, i: nat) -> bool {
    &&& forall|k: int| st.length <= k < i ==> #[trigger] conv(p, st.locator, s, k) == 0
    &&& st.length > 0 ==> {
        &&& forall|k: int| st.last_length <= k < i - st.delay ==> #[trigger] conv(p, st.last, s, k)
            == 0
        &&& conv(p, st.last, s, i - st.delay) == st.last_discrepancy
    }
}

proof fn lemma_discrepancy(p: u16, s: Seq<u8>, st: Massey, n: nat, i: nat)
    requires
        is_primitive(p),
        massey_shape(st, n, i),
        i < s.len(),
    ensures
        discrepancy(p, s, st, i as int) == conv(p, st.locator, s, i as int),
{
    let c = st.locator;
    let f = conv_terms(p, c, s, i as int);
    let g = |j: int| f(1 + j);
    let h = |j: int| gf_mul(p, c[j + 1], s[i - (j + 1)]);
    lemma_sum_split(1, i, f, g);
    assert(gf_sum(1, f) == gf_sum(0, f) ^ f(0));
    lemma_mul_zero_one(p, s[i as int]);
    lemma_xor(s[i as int], 0, 0);
    assert forall|j: int| st.length <= j < i implies #[trigger] g(j) == 0 by {
        lemma_mul_zero_one(p, coef(s, i - (1 + j)));
        if 1 + j <= n {
            assert(c[1 + j] == 0);
        }
    }
    lemma_sum_zero_tail(st.length, i, g);
    lemma_sum_ext(st.length, g, h);
}

/// Every step keeps the shape.
pub proof fn lemma_massey_shape(p: u16, s: Seq<u8>, n: nat, i: nat)
    requires
        is_primitive(p),
        i <= n,
    ensures
        massey_shape(massey(p, s, n, i), n, i),
    decreases i,
{
    if i > 0 {
        let j = (i - 1) as nat;
        lemma_massey_shape(p, s, n, j);
        let st = massey(p, s, n, j);
        let d = discrepancy(p, s, st, j as int);
        let next = massey(p, s, n, i);
        if d != 0 {
            let shifted = |k: int|
                gf_div(p, gf_mul(p, coef(st.last, k - st.delay), d), st.last_discrepancy);
            assert forall|k: int|
                0 <= k <= n && (k < st.delay || k > st.last_length
                    + st.delay) implies #[trigger] next.locator[k] == st.locator[k] by {
                reveal(gf_mul);
                reveal(gf_div);
                assert(coef(st.last, k - st.delay) == 0);
                lemma_xor(st.locator[k], 0, 0);
            }
        }
    }
}

/// The product with an adjusted locator.
proof fn lemma_conv_adjusted(p: u16, s: Seq<u8>, st: Massey, d: u8, k: int)
    requires
        is_primitive(p),
        st.last_discrepancy != 0,
        st.last.len() == st.locator.len(),
        k >= 0,
        forall|j: int|
            0 <= j < st.last.len() && j + st.delay >= st.last.len() ==> #[trigger] st.last[j] == 0,
    ensures
        conv(p, adjusted(p, st, d), s, k) == conv(p, st.locator, s, k) ^ gf_mul(
            p,
            gf_div(p, d, st.last_discrepancy),
            if k >= st.delay {
                conv(p, st.last, s, k - st.delay)
            } else {
                0
            },
        ),
{
    let f = conv_terms(p, st.locator, s, k);
    let h = conv_terms(p, adjusted(p, st, d), s, k);
    let r = gf_div(p, d, st.last_discrepancy);
    let lastc = |i: int| gf_mul(p, coef(st.last, i - st.delay), coef(s, k - i));
    let g = |i: int| gf_mul(p, r, lastc(i));
    let n = (k + 1) as nat;
    assert forall|i: int| 0 <= i < n implies #[trigger] h(i) == f(i) ^ g(i) by {
        let b = coef(st.last, i - st.delay);
        let y = coef(s, k - i);
        if i < st.locator.len() {
            lemma_inv(p, st.last_discrepancy);
            let inv = gf_inv(p, st.last_discrepancy);
            assert(gf_div(p, gf_mul(p, b, d), st.last_discrepancy) == gf_mul(
                p,
                gf_mul(p, b, d),
                inv,
            ));
            assert(r == gf_mul(p, d, inv));
            lemma_mul_associates(p, b, d, inv);
            lemma_mul_commutes(p, b, r);
            lemma_mul_distributes(p, st.locator[i], gf_mul(p, r, b), y);
            lemma_mul_associates(p, r, b, y);
        } else {
            lemma_mul_zero_one(p, y);
            lemma_mul_zero_one(p, r);
            assert(b == 0) by {
                if 0 <= i - st.delay < st.last.len() {
                    assert(st.last[i - st.delay] == 0);
                }
            }
            lemma_xor(0, 0, 0);
        }
    }
    lemma_sum_add(n, f, g, h);
    lemma_sum_scale(p, n, r, lastc, g);
    let delay = st.delay as int;
    assert forall|i: int| 0 <= i < n && i < delay implies #[trigger] lastc(i) == 0 by {
        lemma_mul_zero_one(p, coef(s, k - i));
    }
    if k >= delay {
        let m = (k - delay + 1) as nat;
        let t = conv_terms(p, st.last, s, k - delay);
        lemma_sum_zero_tail(0, st.delay, lastc);
        assert forall|i: int| 0 <= i < m implies #[trigger] t(i) == lastc(st.delay + i) by {
            assert(st.delay + i - st.delay == i);
            assert(k - (st.delay + i) == k - delay - i);
        }
        lemma_sum_split(st.delay, m, lastc, t);
        assert(st.delay + m == n);
        lemma_xor(gf_sum(m, t), 0, 0);
    } else {
        lemma_sum_zero_tail(0, n, lastc);
    }
}

/// Every step keeps the locator generating.
pub proof fn lemma_massey_generates(p: u16, s: Seq<u8>, n: nat, i: nat)
    requires
        is_primitive(p),
        i <= n,
        i <= s.len(),
    ensures
        massey_generates(p, s, massey(p, s, n, i), i),
    decreases i,
{
    lemma_massey_shape(p, s, n, i);
    if i > 0 {
        let j = (i - 1) as nat;
        lemma_massey_shape(p, s, n, j);
        lemma_massey_generates(p, s, n, j);
        let st = massey(p, s, n, j);
        let d = discrepancy(p, s, st, j as int);
        lemma_discrepancy(p, s, st, n, j);
        let next = massey(p, s, n, i);
        if d != 0 {
            let r = gf_div(p, d, st.last_discrepancy);
            assert forall|k: int| next.length <= k < i implies #[trigger] conv(
                p,
                next.locator,
                s,
                k,
            ) == 0 by {
                lemma_conv_adjusted(p, s, st, d, k);
                assert(k >= st.last_length + st.delay);
                if st.length == 0 {
                    assert(st.delay == j + 1);
                    assert(false);
                }
                if k < j {
                    assert(conv(p, st.locator, s, k) == 0);
                    assert(conv(p, st.last, s, k - st.delay) == 0);
                    lemma_mul_zero_one(p, r);
                    lemma_xor(0, 0, 0);
                } else {
                    lemma_div(p, d, st.last_discrepancy);
                    lemma_xor(d, d, 0);
                }
            }
        }
    }
}

/// `s[k]` is a weighted sum of the `k`th powers of `xs`.
pub open spec fn is_power_sums(p: u16, s: Seq<u8>, w: Seq<u8>, xs: Seq<u8>) -> bool {
    forall|k: int| 0 <= k < s.len() ==> #[trigger] s[k] == power_sum(p, w, xs, k as nat)
}

/// The first `n` powers of `x`.
pub open spec fn geometric(p: u16, x: u8, n: nat) -> Seq<u8> {
    Seq::new(n, |k: int| gf_pow(p, x, k as nat))
}

/// Multiplying by a geometric series, from the length of `c` on, is evaluation
/// at the reciprocal.
pub proof fn lemma_conv_geometric(p: u16, c: Seq<u8>, x: u8, n: nat, k: int)
    requires
        is_primitive(p),
        x != 0,
        0 <= k < n,
        forall|i: int| k < i < c.len() ==> #[trigger] c[i] == 0,
    ensures
        conv(p, c, geometric(p, x, n), k) == gf_mul(
            p,
            gf_pow(p, x, k as nat),
            poly_eval(p, c, gf_inv(p, x)),
        ),
{
    let inv = gf_inv(p, x);
    let f = conv_terms(p, c, geometric(p, x, n), k);
    let e = eval_terms(p, c, inv);
    let m = (k + 1) as nat;
    assert forall|i: int| 0 <= i < m implies #[trigger] f(i) == gf_mul(
        p,
        gf_pow(p, x, k as nat),
        e(i),
    ) by {
        let (a, y, z) = (coef(c, i), gf_pow(p, x, k as nat), gf_pow(p, inv, i as nat));
        lemma_pow_inv(p, x, k as nat, i as nat);
        lemma_mul_commutes(p, a, z);
        lemma_mul_associates(p, y, z, a);
        lemma_mul_commutes(p, gf_mul(p, y, z), a);
    }
    lemma_sum_scale(p, m, gf_pow(p, x, k as nat), e, f);
    if c.len() <= m {
        lemma_eval_extend(p, c, m, inv);
    } else {
        assert forall|i: int| m <= i < c.len() implies #[trigger] e(i) == 0 by {
            assert(c[i] == 0);
            lemma_mul_zero_one(p, gf_pow(p, inv, i as nat));
        }
        lemma_sum_zero_tail(m, c.len(), e);
    }
}

/// The product with a weighted sum of geometric series is the weighted sum of
/// the products.
pub proof fn lemma_conv_power_sums(p: u16, c: Seq<u8>, s: Seq<u8>, w: Seq<u8>, xs: Seq<u8>, k: int)
    requires
        is_primitive(p),
        is_power_sums(p, s, w, xs),
        w.len() == xs.len(),
        0 <= k < s.len(),
    ensures
        conv(p, c, s, k) == gf_sum(
            xs.len(),
            |t: int| gf_mul(p, w[t], conv(p, c, geometric(p, xs[t], s.len()), k)),
        ),
{
    let m = (k + 1) as nat;
    let n = s.len();
    let f = |i: int, t: int| gf_mul(p, coef(c, i), gf_mul(p, w[t], gf_pow(p, xs[t], (k - i) as nat)));
    let rows = conv_terms(p, c, s, k);
    let columns = |t: int| gf_mul(p, w[t], conv(p, c, geometric(p, xs[t], n), k));
    assert forall|i: int| 0 <= i < m implies #[trigger] rows(i) == gf_sum(
        xs.len(),
        |t: int| f(i, t),
    ) by {
        assert(s[k - i] == power_sum(p, w, xs, (k - i) as nat));
        lemma_sum_scale(
            p,
            xs.len(),
            coef(c, i),
            power_terms(p, w, xs, (k - i) as nat),
            |t: int| f(i, t),
        );
    }
    assert forall|t: int| 0 <= t < xs.len() implies #[trigger] columns(t) == gf_sum(
        m,
        |i: int| f(i, t),
    ) by {
        let terms = conv_terms(p, c, geometric(p, xs[t], n), k);
        let g = |i: int| f(i, t);
        assert forall|i: int| 0 <= i < m implies #[trigger] g(i) == gf_mul(p, w[t], terms(i)) by {
            let (a, b, y) = (coef(c, i), w[t], gf_pow(p, xs[t], (k - i) as nat));
            lemma_mul_associates(p, a, b, y);
            lemma_mul_commutes(p, a, b);
            lemma_mul_associates(p, b, a, y);
        }
        lemma_sum_scale(p, m, w[t], terms, g);
    }
    lemma_sum_swap(m, xs.len(), f, rows, columns);
}

/// The weights left after multiplying by a locator of length `l`.
spec fn residual(p: u16, c: Seq<u8>, l: nat, w: Seq<u8>, xs: Seq<u8>) -> Seq<u8> {
    Seq::new(
        xs.len(),
        |t: int| gf_mul(p, gf_mul(p, w[t], gf_pow(p, xs[t], l)), poly_eval(p, c, gf_inv(p, xs[t]))),
    )
}

/// From its length on, a locator's products are power sums of the residual
/// weights.
proof fn lemma_residual(p: u16, c: Seq<u8>, l: nat, s: Seq<u8>, w: Seq<u8>, xs: Seq<u8>, u: nat)
    requires
        is_primitive(p),
        is_power_sums(p, s, w, xs),
        w.len() == xs.len(),
        forall|t: int| 0 <= t < xs.len() ==> #[trigger] xs[t] != 0,
        forall|k: int| l < k < c.len() ==> #[trigger] c[k] == 0,
        l + u < s.len(),
    ensures
        conv(p, c, s, (l + u) as int) == power_sum(p, residual(p, c, l, w, xs), xs, u),
{
    let k = (l + u) as int;
    lemma_conv_power_sums(p, c, s, w, xs, k);
    let f = |t: int| gf_mul(p, w[t], conv(p, c, geometric(p, xs[t], s.len()), k));
    let g = power_terms(p, residual(p, c, l, w, xs), xs, u);
    assert forall|t: int| 0 <= t < xs.len() implies #[trigger] f(t) == g(t) by {
        let x = xs[t];
        lemma_conv_geometric(p, c, x, s.len(), k);
        lemma_pow_add(p, x, l, u);
        let (a, xl, xu, e) = (w[t], gf_pow(p, x, l), gf_pow(p, x, u), poly_eval(p, c, gf_inv(p, x)));
        // a * ((xl * xu) * e) == ((a * xl) * e) * xu
        lemma_mul_associates(p, xl, xu, e);
        lemma_mul_commutes(p, xu, e);
        lemma_mul_associates(p, a, xl, gf_mul(p, e, xu));
        lemma_mul_associates(p, gf_mul(p, a, xl), e, xu);
    }
    lemma_sum_ext(xs.len(), f, g);
}

/// Once a locator has generated as many syndromes past its length as there are
/// points, all residual weights are gone, so it generates the rest too and
/// vanishes at the reciprocals of the points.
proof fn lemma_residual_vanishes(
    p: u16,
    c: Seq<u8>,
    l: nat,
    s: Seq<u8>,
    w: Seq<u8>,
    xs: Seq<u8>,
    i: nat,
)
    requires
        is_primitive(p),
        is_power_sums(p, s, w, xs),
        w.len() == xs.len(),
        distinct(xs),
        forall|t: int| 0 <= t < xs.len() ==> #[trigger] xs[t] != 0,
        forall|k: int| l < k < c.len() ==> #[trigger] c[k] == 0,
        forall|k: int| l <= k < i ==> #[trigger] conv(p, c, s, k) == 0,
        l + xs.len() <= i <= s.len(),
    ensures
        forall|k: int| l <= k < s.len() ==> #[trigger] conv(p, c, s, k) == 0,
        forall|t: int|
            0 <= t < xs.len() && w[t] != 0 ==> poly_eval(p, c, gf_inv(p, #[trigger] xs[t])) == 0,
{
    let q = residual(p, c, l, w, xs);
    assert forall|u: nat| u < xs.len() implies #[trigger] power_sum(p, q, xs, u) == 0 by {
        lemma_residual(p, c, l, s, w, xs, u);
        assert(conv(p, c, s, (l + u) as int) == 0);
    }
    lemma_vandermonde(p, q, xs);
    assert forall|k: int| l <= k < s.len() implies #[trigger] conv(p, c, s, k) == 0 by {
        let u = (k - l) as nat;
        lemma_residual(p, c, l, s, w, xs, u);
        let f = power_terms(p, q, xs, u);
        assert forall|t: int| 0 <= t < xs.len() implies #[trigger] f(t) == 0 by {
            assert(q[t] == 0);
            lemma_mul_zero_one(p, gf_pow(p, xs[t], u));
        }
        lemma_sum_zero_tail(0, xs.len(), f);
    }
    assert forall|t: int| 0 <= t < xs.len() && w[t] != 0 implies poly_eval(
        p,
        c,
        gf_inv(p, #[trigger] xs[t]),
    ) == 0 by {
        assert(q[t] == 0);
        lemma_pow_nonzero(p, xs[t], l);
        lemma_mul_nonzero(p, w[t], gf_pow(p, xs[t], l));
        lemma_mul_nonzero(
            p,
            gf_mul(p, w[t], gf_pow(p, xs[t], l)),
            poly_eval(p, c, gf_inv(p, xs[t])),
        );
    }
}

/// The length never outgrows the number of points.
proof fn lemma_massey_short(p: u16, s: Seq<u8>, w: Seq<u8>, xs: Seq<u8>, n: nat, i: nat)
    requires
        is_primitive(p),
        is_power_sums(p, s, w, xs),
        w.len() == xs.len(),
        distinct(xs),
        forall|t: int| 0 <= t < xs.len() ==> #[trigger] xs[t] != 0,
        i <= n,
        i <= s.len(),
    ensures
        massey(p, s, n, i).length <= xs.len(),
    decreases i,
{
    if i > 0 {
        let j = (i - 1) as nat;
        lemma_massey_short(p, s, w, xs, n, j);
        lemma_massey_shape(p, s, n, j);
        lemma_massey_generates(p, s, n, j);
        let st = massey(p, s, n, j);
        let d = discrepancy(p, s, st, j as int);
        lemma_discrepancy(p, s, st, n, j);
        if d != 0 && 2 * st.length <= j && st.length + xs.len() <= j {
            lemma_residual_vanishes(p, st.locator, st.length, s, w, xs, j);
            assert(conv(p, st.locator, s, j as int) == 0);
        }
    }
}

/// The reciprocals of the points.
pub open spec fn reciprocals(p: u16, xs: Seq<u8>) -> Seq<u8> {
    Seq::new(xs.len(), |t: int| gf_inv(p, xs[t]))
}

pub proof fn lemma_reciprocals_distinct(p: u16, xs: Seq<u8>)
    requires
        is_primitive(p),
        distinct(xs),
        forall|t: int| 0 <= t < xs.len() ==> #[trigger] xs[t] != 0,
    ensures
        distinct(reciprocals(p, xs)),
{
    let r = reciprocals(p, xs);
    assert forall|i: int, j: int| 0 <= i < j < r.len() implies #[trigger] r[i] != #[trigger] r[j] by {
        assert(xs[i] != xs[j]);
        if r[i] == r[j] {
            lemma_inv_injective(p, xs[i], xs[j]);
        }
    }
}

/// With at least twice as many syndromes as errors, the algorithm ends on a
/// locator whose length is the number of errors and which vanishes at the
/// reciprocal of every error's point, and nowhere else.
pub proof fn lemma_massey_locates(p: u16, s: Seq<u8>, w: Seq<u8>, xs: Seq<u8>, n: nat)
    requires
        is_primitive(p),
        is_power_sums(p, s, w, xs),
        w.len() == xs.len(),
        distinct(xs),
        forall|t: int| 0 <= t < xs.len() ==> #[trigger] xs[t] != 0,
        forall|t: int| 0 <= t < xs.len() ==> #[trigger] w[t] != 0,
        2 * xs.len() <= s.len() <= n,
    ensures
        massey(p, s, n, s.len()).length == xs.len(),
        forall|x: u8|
            #[trigger] poly_eval(
                p,
                massey(p, s, n, s.len()).locator.take((xs.len() + 1) as int),
                x,
            ) == 0 <==> reciprocals(p, xs).contains(x),
{
    let i = s.len();
    let st = massey(p, s, n, i);
    lemma_massey_short(p, s, w, xs, n, i);
    lemma_massey_shape(p, s, n, i);
    lemma_massey_generates(p, s, n, i);
    lemma_residual_vanishes(p, st.locator, st.length, s, w, xs, i);
    let l = st.length;
    let c = st.locator.take((l + 1) as int);
    let roots = reciprocals(p, xs);
    lemma_reciprocals_distinct(p, xs);
    assert forall|k: int| #[trigger] coef(c, k) == coef(st.locator, k) by {
        if l < k <= n {
            assert(st.locator[k] == 0);
        }
    }
    assert forall|t: int| 0 <= t < roots.len() implies poly_eval(p, c, #[trigger] roots[t]) == 0 by {
        assert(w[t] != 0 && xs[t] != 0);
        lemma_eval_same(p, c, st.locator, roots[t]);
    }
    assert(c[0] == 1);
    if xs.len() > l {
        lemma_root_bound(p, c, roots);
    }
    assert(l == xs.len());
    assert forall|x: u8| poly_eval(p, c, x) == 0 implies roots.contains(x) by {
        if !roots.contains(x) {
            let more = roots.push(x);
            assert(distinct(more));
            assert forall|t: int| 0 <= t < more.len() implies poly_eval(p, c, #[trigger] more[t])
                == 0 by {
                if t < roots.len() {
                    assert(more[t] == roots[t]);
                }
            }
            lemma_root_bound(p, c, more);
        }
    }
}

} // verus!
