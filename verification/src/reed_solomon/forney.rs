//! Forney's formula: the error values from the locator and the syndromes.
//!
//! Dividing the locator by the factor of one error point leaves a quotient that
//! vanishes at the reciprocals of all the other points. The error evaluator is
//! the sum of those quotients, each weighted by its error, so at one reciprocal
//! a single weight survives; the locator's derivative picks out the same
//! quotient.

use super::field::{lemma_repeated_sum, repeated_sum};
use super::galois::{
    gf_div, gf_inv, gf_mul, gf_pow, is_primitive, lemma_div, lemma_inv, lemma_mul_associates,
    lemma_mul_cancel, lemma_mul_commutes, lemma_mul_distributes, lemma_mul_nonzero,
    lemma_mul_zero_one, lemma_xor,
};
use super::massey::{
    geometric, is_power_sums, lemma_conv_geometric, lemma_conv_power_sums,
    lemma_reciprocals_distinct, reciprocals,
};
use super::poly_model::{
    coef, conv, conv_terms, eval_terms, lemma_eval_add, lemma_eval_same, poly_derivative, poly_eval,
};
use super::sums::{gf_sum, lemma_sum_ext, lemma_sum_scale, lemma_sum_single, lemma_sum_swap};
use super::vandermonde::{distinct, lemma_eval_cons, lemma_root_bound};
use vstd::prelude::*;

verus! {

/// The product of locator and syndromes, as far as there are syndromes.
pub open spec fn error_evaluator(p: u16, locator: Seq<u8>, s: Seq<u8>) -> Seq<u8> {
    Seq::new(s.len(), |k: int| conv(p, locator, s, k))
}

/// The locator divided by `1 + x * X`.
spec fn quotient(p: u16, locator: Seq<u8>, x: u8) -> Seq<u8> {
    Seq::new(
        (locator.len() - 1) as nat,
        |k: int| conv(p, locator, geometric(p, x, locator.len()), k),
    )
}

/// `c * a` for every coefficient `a`.
spec fn scaled(p: u16, c: u8, s: Seq<u8>) -> Seq<u8> {
    Seq::new(s.len(), |k: int| gf_mul(p, c, s[k]))
}

proof fn lemma_eval_scaled(p: u16, c: u8, s: Seq<u8>, x: u8)
    requires
        is_primitive(p),
    ensures
        poly_eval(p, scaled(p, c, s), x) == gf_mul(p, c, poly_eval(p, s, x)),
{
    let f = eval_terms(p, s, x);
    let g = eval_terms(p, scaled(p, c, s), x);
    assert forall|i: int| 0 <= i < s.len() implies #[trigger] g(i) == gf_mul(p, c, f(i)) by {
        lemma_mul_associates(p, c, s[i], gf_pow(p, x, i as nat));
    }
    lemma_sum_scale(p, s.len(), c, f, g);
}

/// How far the geometric series runs does not matter below its end.
proof fn lemma_conv_geometric_len(p: u16, c: Seq<u8>, x: u8, a: nat, b: nat, k: int)
    requires
        0 <= k < a,
        k < b,
    ensures
        conv(p, c, geometric(p, x, a), k) == conv(p, c, geometric(p, x, b), k),
{
    lemma_sum_ext(
        (k + 1) as nat,
        conv_terms(p, c, geometric(p, x, a), k),
        conv_terms(p, c, geometric(p, x, b), k),
    );
}

/// Each product coefficient is the locator's own plus `x` times the one before.
proof fn lemma_conv_geometric_step(p: u16, c: Seq<u8>, x: u8, n: nat, k: int)
    requires
        is_primitive(p),
        0 < k < n,
    ensures
        conv(p, c, geometric(p, x, n), k) == coef(c, k) ^ gf_mul(
            p,
            x,
            conv(p, c, geometric(p, x, n), k - 1),
        ),
        conv(p, c, geometric(p, x, n), 0) == coef(c, 0),
{
    let g = geometric(p, x, n);
    let f = conv_terms(p, c, g, k);
    let h = conv_terms(p, c, g, k - 1);
    assert forall|i: int| 0 <= i < k implies #[trigger] f(i) == gf_mul(p, x, h(i)) by {
        let y = gf_pow(p, x, (k - 1 - i) as nat);
        assert(g[k - i] == gf_mul(p, x, y));
        assert(g[k - 1 - i] == y);
        lemma_mul_associates(p, coef(c, i), x, y);
        lemma_mul_commutes(p, coef(c, i), x);
        lemma_mul_associates(p, x, coef(c, i), y);
    }
    lemma_sum_scale(p, k as nat, x, h, f);
    assert(gf_sum((k + 1) as nat, f) == gf_sum(k as nat, f) ^ f(k));
    lemma_mul_zero_one(p, coef(c, k));
    assert(g[0] == 1);
    lemma_xor(coef(c, k), gf_sum(k as nat, f), 0);
    let z = conv_terms(p, c, g, 0);
    assert(gf_sum(1, z) == gf_sum(0, z) ^ z(0));
    lemma_mul_zero_one(p, coef(c, 0));
    lemma_xor(coef(c, 0), 0, 0);
}

/// `locator == quotient + x * X * quotient`, coefficient by coefficient.
proof fn lemma_quotient_coef(p: u16, locator: Seq<u8>, x: u8, k: int)
    requires
        is_primitive(p),
        x != 0,
        locator.len() >= 2,
        poly_eval(p, locator, gf_inv(p, x)) == 0,
    ensures
        coef(locator, k) == coef(quotient(p, locator, x), k) ^ coef(
            seq![0u8] + scaled(p, x, quotient(p, locator, x)),
            k,
        ),
{
    let n = locator.len();
    let q = quotient(p, locator, x);
    let s = seq![0u8] + scaled(p, x, q);
    lemma_xor(0, 0, 0);
    lemma_conv_geometric_step(p, locator, x, n, 1);
    if k == 0 {
        lemma_xor(locator[0], 0, 0);
    } else if 0 < k < n {
        lemma_conv_geometric_step(p, locator, x, n, k);
        let (c, now, before) = (
            coef(locator, k),
            conv(p, locator, geometric(p, x, n), k),
            conv(p, locator, geometric(p, x, n), k - 1),
        );
        assert(q[k - 1] == before);
        assert(s[k] == gf_mul(p, x, before));
        lemma_xor(now, c, s[k]);
        lemma_xor(c, s[k], now);
        lemma_xor(s[k], c, 0);
        if k == n - 1 {
            lemma_conv_geometric(p, locator, x, n, k);
            lemma_mul_zero_one(p, gf_pow(p, x, k as nat));
        }
    }
}

/// The locator's value is `(1 + X x)` times the quotient's.
proof fn lemma_quotient_eval(p: u16, locator: Seq<u8>, x: u8, at: u8)
    requires
        is_primitive(p),
        x != 0,
        locator.len() >= 2,
        poly_eval(p, locator, gf_inv(p, x)) == 0,
    ensures
        poly_eval(p, locator, at) == gf_mul(
            p,
            1u8 ^ gf_mul(p, at, x),
            poly_eval(p, quotient(p, locator, x), at),
        ),
{
    let q = quotient(p, locator, x);
    let xq = scaled(p, x, q);
    assert forall|k: int| #[trigger] coef(locator, k) == coef(q, k) ^ coef(seq![0u8] + xq, k) by {
        lemma_quotient_coef(p, locator, x, k);
    }
    lemma_eval_add(p, q, seq![0u8] + xq, locator, at);
    lemma_eval_cons(p, 0, xq, at);
    lemma_eval_scaled(p, x, q, at);
    let v = poly_eval(p, q, at);
    lemma_mul_associates(p, at, x, v);
    lemma_mul_distributes(p, 1, gf_mul(p, at, x), v);
    lemma_mul_zero_one(p, v);
    lemma_xor(gf_mul(p, at, gf_mul(p, x, v)), 0, 0);
}

/// At the reciprocal of `x` the derivative is `x` times the quotient.
proof fn lemma_derivative_eval(p: u16, locator: Seq<u8>, x: u8)
    requires
        is_primitive(p),
        x != 0,
        locator.len() >= 2,
        poly_eval(p, locator, gf_inv(p, x)) == 0,
    ensures
        poly_eval(p, poly_derivative(locator), gf_inv(p, x)) == gf_mul(
            p,
            x,
            poly_eval(p, quotient(p, locator, x), gf_inv(p, x)),
        ),
{
    let at = gf_inv(p, x);
    let q = quotient(p, locator, x);
    let xq = scaled(p, x, q);
    let d = poly_derivative(q);
    let xd = seq![0u8] + scaled(p, x, d);
    let der = poly_derivative(locator);
    let sum = Seq::new(der.len(), |i: int| coef(xq, i) ^ coef(xd, i));
    assert forall|i: int| #[trigger] coef(sum, i) == coef(xq, i) ^ coef(xd, i) by {
        lemma_xor(0, 0, 0);
    }
    assert forall|i: int| #[trigger] coef(der, i) == coef(d, i) ^ coef(sum, i) by {
        lemma_xor(0, 0, 0);
        if 0 <= i < der.len() {
            lemma_quotient_coef(p, locator, x, i + 1);
            let n = (i + 1) as nat;
            lemma_repeated_sum(locator[i + 1], n);
            lemma_repeated_sum(coef(q, i + 1), n);
            lemma_repeated_sum(q[i], i as nat);
            assert((seq![0u8] + xq)[i + 1] == xq[i]);
            lemma_mul_zero_one(p, x);
            lemma_xor(coef(q, i + 1), xq[i], 0);
            lemma_xor(xq[i], 0, 0);
            if i > 0 {
                assert(d[i - 1] == repeated_sum(q[i], i as nat));
                assert(xd[i] == gf_mul(p, x, d[i - 1]));
            }
        }
    }
    lemma_eval_add(p, d, sum, der, at);
    lemma_eval_add(p, xq, xd, sum, at);
    lemma_eval_scaled(p, x, q, at);
    lemma_eval_cons(p, 0, scaled(p, x, d), at);
    lemma_eval_scaled(p, x, d, at);
    let (qv, dv) = (poly_eval(p, q, at), poly_eval(p, d, at));
    lemma_inv(p, x);
    lemma_mul_associates(p, at, x, dv);
    lemma_mul_zero_one(p, dv);
    lemma_xor(dv, 0, 0);
    lemma_xor(dv, gf_mul(p, x, qv), dv);
    lemma_xor(gf_mul(p, x, qv), dv, dv);
    lemma_xor(gf_mul(p, x, qv), 0, 0);
}

/// The evaluator's value is the weighted sum of the quotients' values.
proof fn lemma_evaluator_eval(
    p: u16,
    locator: Seq<u8>,
    s: Seq<u8>,
    w: Seq<u8>,
    xs: Seq<u8>,
    at: u8,
)
    requires
        is_primitive(p),
        is_power_sums(p, s, w, xs),
        w.len() == xs.len(),
        2 <= locator.len() <= s.len() + 1,
        forall|t: int| 0 <= t < xs.len() ==> #[trigger] xs[t] != 0,
        forall|t: int|
            0 <= t < xs.len() ==> poly_eval(p, locator, gf_inv(p, #[trigger] xs[t])) == 0,
    ensures
        poly_eval(p, error_evaluator(p, locator, s), at) == gf_sum(
            xs.len(),
            |t: int| gf_mul(p, w[t], poly_eval(p, quotient(p, locator, xs[t]), at)),
        ),
{
    let n = s.len();
    let omega = error_evaluator(p, locator, s);
    let f = |k: int, t: int|
        gf_mul(
            p,
            gf_pow(p, at, k as nat),
            gf_mul(p, w[t], conv(p, locator, geometric(p, xs[t], n), k)),
        );
    let rows = eval_terms(p, omega, at);
    let columns = |t: int| gf_mul(p, w[t], poly_eval(p, quotient(p, locator, xs[t]), at));
    assert forall|k: int| 0 <= k < n implies #[trigger] rows(k) == gf_sum(
        xs.len(),
        |t: int| f(k, t),
    ) by {
        lemma_conv_power_sums(p, locator, s, w, xs, k);
        let g = |t: int| gf_mul(p, w[t], conv(p, locator, geometric(p, xs[t], n), k));
        lemma_sum_scale(p, xs.len(), gf_pow(p, at, k as nat), g, |t: int| f(k, t));
        lemma_mul_commutes(p, gf_pow(p, at, k as nat), conv(p, locator, s, k));
    }
    assert forall|t: int| 0 <= t < xs.len() implies #[trigger] columns(t) == gf_sum(
        n,
        |k: int| f(k, t),
    ) by {
        let x = xs[t];
        let q = quotient(p, locator, x);
        let long = Seq::new(n, |k: int| conv(p, locator, geometric(p, x, n), k));
        assert(poly_eval(p, locator, gf_inv(p, x)) == 0);
        assert forall|k: int| #[trigger] coef(q, k) == coef(long, k) by {
            if 0 <= k < q.len() {
                lemma_conv_geometric_len(p, locator, x, locator.len(), n, k);
            } else if q.len() <= k < n {
                lemma_conv_geometric(p, locator, x, n, k);
                lemma_mul_zero_one(p, gf_pow(p, x, k as nat));
            }
        }
        lemma_eval_same(p, q, long, at);
        let terms = eval_terms(p, long, at);
        let g = |k: int| f(k, t);
        assert forall|k: int| 0 <= k < n implies #[trigger] g(k) == gf_mul(p, w[t], terms(k)) by {
            let (y, b, c) = (gf_pow(p, at, k as nat), w[t], long[k]);
            lemma_mul_commutes(p, y, gf_mul(p, b, c));
            lemma_mul_associates(p, b, c, y);
        }
        lemma_sum_scale(p, n, w[t], terms, g);
    }
    lemma_sum_swap(n, xs.len(), f, rows, columns);
}

/// The quotient for one point does not vanish at that point's reciprocal.
proof fn lemma_quotient_nonzero(p: u16, locator: Seq<u8>, xs: Seq<u8>, t: int)
    requires
        is_primitive(p),
        locator.len() == xs.len() + 1,
        locator[0] != 0,
        distinct(xs),
        0 <= t < xs.len(),
        forall|i: int| 0 <= i < xs.len() ==> #[trigger] xs[i] != 0,
        forall|i: int|
            0 <= i < xs.len() ==> poly_eval(p, locator, gf_inv(p, #[trigger] xs[i])) == 0,
    ensures
        poly_eval(p, quotient(p, locator, xs[t]), gf_inv(p, xs[t])) != 0,
        forall|i: int|
            0 <= i < xs.len() && i != t ==> poly_eval(
                p,
                quotient(p, locator, xs[t]),
                gf_inv(p, #[trigger] xs[i]),
            ) == 0,
{
    let x = xs[t];
    let q = quotient(p, locator, x);
    let roots = reciprocals(p, xs);
    lemma_reciprocals_distinct(p, xs);
    assert(poly_eval(p, locator, gf_inv(p, x)) == 0);
    assert forall|i: int| 0 <= i < xs.len() && i != t implies poly_eval(
        p,
        q,
        gf_inv(p, #[trigger] xs[i]),
    ) == 0 by {
        let at = gf_inv(p, xs[i]);
        assert(poly_eval(p, locator, at) == 0);
        lemma_quotient_eval(p, locator, x, at);
        let k = gf_mul(p, at, x);
        lemma_mul_nonzero(p, 1u8 ^ k, poly_eval(p, q, at));
        if 1u8 ^ k == 0 {
            lemma_xor(1, k, 0);
            lemma_inv(p, xs[i]);
            lemma_mul_commutes(p, at, x);
            lemma_mul_commutes(p, at, xs[i]);
            lemma_mul_cancel(p, x, xs[i], at);
            assert(xs[i] != xs[t]);
        }
    }
    if poly_eval(p, q, gf_inv(p, x)) == 0 {
        assert forall|i: int| 0 <= i < roots.len() implies poly_eval(p, q, #[trigger] roots[i])
            == 0 by {
            assert(xs[i] != 0);
        }
        lemma_root_bound(p, q, roots);
        assert(q[0] == 0);
        lemma_conv_geometric_step(p, locator, x, locator.len(), 1);
    }
}

/// Forney's formula: evaluator over derivative, at the reciprocal of an error's
/// point, is the error's weight divided by the point.
pub proof fn lemma_forney(
    p: u16,
    locator: Seq<u8>,
    s: Seq<u8>,
    w: Seq<u8>,
    xs: Seq<u8>,
    t: int,
)
    requires
        is_primitive(p),
        is_power_sums(p, s, w, xs),
        w.len() == xs.len(),
        xs.len() <= s.len(),
        locator.len() == xs.len() + 1,
        locator[0] != 0,
        distinct(xs),
        0 <= t < xs.len(),
        forall|i: int| 0 <= i < xs.len() ==> #[trigger] xs[i] != 0,
        forall|i: int|
            0 <= i < xs.len() ==> poly_eval(p, locator, gf_inv(p, #[trigger] xs[i])) == 0,
    ensures
        gf_div(
            p,
            poly_eval(p, error_evaluator(p, locator, s), gf_inv(p, xs[t])),
            poly_eval(p, poly_derivative(locator), gf_inv(p, xs[t])),
        ) == gf_mul(p, w[t], gf_inv(p, xs[t])),
{
    let x = xs[t];
    let at = gf_inv(p, x);
    lemma_evaluator_eval(p, locator, s, w, xs, at);
    let f = |i: int| gf_mul(p, w[i], poly_eval(p, quotient(p, locator, xs[i]), at));
    assert forall|i: int| 0 <= i < xs.len() && i != t implies #[trigger] f(i) == 0 by {
        lemma_quotient_nonzero(p, locator, xs, i);
        assert(xs[t] != 0);
        lemma_mul_zero_one(p, w[i]);
    }
    lemma_sum_single(xs.len(), t, f);
    assert(poly_eval(p, locator, gf_inv(p, xs[t])) == 0);
    lemma_derivative_eval(p, locator, x);
    lemma_quotient_nonzero(p, locator, xs, t);
    let e = poly_eval(p, quotient(p, locator, x), at);
    // (w e) / (x e) == w / x, because (w / x) (x e) == w e
    let (top, bottom) = (gf_mul(p, w[t], e), gf_mul(p, x, e));
    lemma_mul_nonzero(p, x, e);
    lemma_inv(p, x);
    lemma_mul_associates(p, w[t], at, bottom);
    lemma_mul_associates(p, at, x, e);
    lemma_mul_zero_one(p, e);
    lemma_div(p, top, bottom);
    lemma_mul_cancel(p, gf_div(p, top, bottom), gf_mul(p, w[t], at), bottom);
}

} // verus!
