//! Two facts about distinct points: power sums over them are independent, and a
//! polynomial has no more roots than its degree.

use super::galois::{
    gf_mul, gf_pow, is_primitive, lemma_mul_associates, lemma_mul_commutes, lemma_mul_distributes,
    lemma_mul_nonzero, lemma_mul_zero_one, lemma_xor,
};
use super::poly_model::{eval_terms, poly_eval};
use super::sums::{
    gf_sum, lemma_sum_add, lemma_sum_ext, lemma_sum_scale, lemma_sum_single, lemma_sum_split,
    lemma_sum_zero_tail,
};
use vstd::prelude::*;

verus! {

/// No value occurs twice.
pub open spec fn distinct(s: Seq<u8>) -> bool {
    forall|i: int, j: int| 0 <= i < j < s.len() ==> #[trigger] s[i] != #[trigger] s[j]
}

/// The terms of the `u`th weighted power sum.
pub open spec fn power_terms(p: u16, w: Seq<u8>, xs: Seq<u8>, u: nat) -> spec_fn(int) -> u8 {
    |t: int| gf_mul(p, w[t], gf_pow(p, xs[t], u))
}

/// `w[0] * xs[0]^u + w[1] * xs[1]^u + ...`.
pub open spec fn power_sum(p: u16, w: Seq<u8>, xs: Seq<u8>, u: nat) -> u8 {
    gf_sum(xs.len(), power_terms(p, w, xs, u))
}

/// As many vanishing power sums as there are distinct points force every weight
/// to be 0.
pub proof fn lemma_vandermonde(p: u16, w: Seq<u8>, xs: Seq<u8>)
    requires
        is_primitive(p),
        w.len() == xs.len(),
        distinct(xs),
        forall|u: nat| u < xs.len() ==> #[trigger] power_sum(p, w, xs, u) == 0,
    ensures
        forall|t: int| 0 <= t < w.len() ==> #[trigger] w[t] == 0,
    decreases xs.len(),
{
    if xs.len() > 0 {
        let n = xs.len();
        let m = (n - 1) as nat;
        let z = xs.last();
        let fewer = xs.drop_last();
        let w2 = Seq::new(m, |t: int| gf_mul(p, w[t], xs[t] ^ z));
        assert forall|u: nat| u < m implies #[trigger] power_sum(p, w2, fewer, u) == 0 by {
            // sum of w_t (x_t + z) x_t^u is S_(u+1) + z S_u
            let high = power_terms(p, w, xs, u + 1);
            let low = |t: int| gf_mul(p, z, power_terms(p, w, xs, u)(t));
            let both = |t: int| gf_mul(p, gf_mul(p, w[t], xs[t] ^ z), gf_pow(p, xs[t], u));
            assert forall|t: int| 0 <= t < n implies #[trigger] both(t) == high(t) ^ low(t) by {
                let (a, x, y) = (w[t], xs[t], gf_pow(p, xs[t], u));
                lemma_mul_distributes(p, x, z, a);
                lemma_mul_distributes(p, gf_mul(p, a, x), gf_mul(p, a, z), y);
                lemma_mul_associates(p, a, x, y);
                lemma_mul_commutes(p, a, z);
                lemma_mul_associates(p, z, a, y);
                assert(gf_pow(p, x, u + 1) == gf_mul(p, x, y));
            }
            lemma_sum_add(n, high, low, both);
            lemma_sum_scale(p, n, z, power_terms(p, w, xs, u), low);
            assert(power_sum(p, w, xs, u) == 0);
            assert(power_sum(p, w, xs, u + 1) == 0);
            lemma_mul_zero_one(p, z);
            lemma_xor(0, 0, 0);
            lemma_xor(z, z, 0);
            lemma_mul_zero_one(p, w[m as int]);
            lemma_mul_zero_one(p, gf_pow(p, z, u));
            assert(both(m as int) == 0);
            lemma_sum_zero_tail(m, n, both);
            lemma_sum_ext(m, power_terms(p, w2, fewer, u), both);
        }
        assert(distinct(fewer));
        lemma_vandermonde(p, w2, fewer);
        assert forall|t: int| 0 <= t < m implies #[trigger] w[t] == 0 by {
            assert(w2[t] == 0);
            assert(xs[t] != xs[m as int]);
            lemma_xor(xs[t], z, 0);
            lemma_mul_nonzero(p, w[t], xs[t] ^ z);
        }
        let f = power_terms(p, w, xs, 0);
        assert forall|t: int| 0 <= t < n && t != m implies #[trigger] f(t) == 0 by {
            assert(w[t] == 0);
            lemma_mul_zero_one(p, 1);
        }
        lemma_sum_single(n, m as int, f);
        assert(power_sum(p, w, xs, 0) == 0);
        lemma_mul_zero_one(p, w[m as int]);
    }
}

/// The value of `a + x * c(x)`.
pub proof fn lemma_eval_cons(p: u16, a: u8, c: Seq<u8>, x: u8)
    requires
        is_primitive(p),
    ensures
        poly_eval(p, seq![a] + c, x) == a ^ gf_mul(p, x, poly_eval(p, c, x)),
{
    let whole = seq![a] + c;
    let f = eval_terms(p, whole, x);
    let g = |i: int| f(1 + i);
    lemma_sum_split(1, c.len(), f, g);
    assert(gf_sum(1, f) == gf_sum(0, f) ^ f(0));
    lemma_mul_zero_one(p, a);
    lemma_xor(a, 0, 0);
    assert forall|i: int| 0 <= i < c.len() implies #[trigger] g(i) == gf_mul(
        p,
        x,
        eval_terms(p, c, x)(i),
    ) by {
        let y = gf_pow(p, x, i as nat);
        assert(gf_pow(p, x, (1 + i) as nat) == gf_mul(p, x, y));
        lemma_mul_associates(p, c[i], x, y);
        lemma_mul_commutes(p, c[i], x);
        lemma_mul_associates(p, x, c[i], y);
    }
    lemma_sum_scale(p, c.len(), x, eval_terms(p, c, x), g);
}

/// The quotient of `c` by `x + r`.
spec fn divide_out(p: u16, c: Seq<u8>, r: u8) -> Seq<u8>
    decreases c.len(),
{
    if c.len() <= 1 {
        seq![]
    } else {
        seq![poly_eval(p, c.drop_first(), r)] + divide_out(p, c.drop_first(), r)
    }
}

/// `c(x) == c(r) + (x + r) * quotient(x)`.
proof fn lemma_divide_out(p: u16, c: Seq<u8>, r: u8, x: u8)
    requires
        is_primitive(p),
        c.len() > 0,
    ensures
        divide_out(p, c, r).len() == c.len() - 1,
        poly_eval(p, c, x) == poly_eval(p, c, r) ^ gf_mul(
            p,
            x ^ r,
            poly_eval(p, divide_out(p, c, r), x),
        ),
    decreases c.len(),
{
    let rest = c.drop_first();
    assert(c =~= seq![c[0]] + rest);
    lemma_eval_cons(p, c[0], rest, x);
    lemma_eval_cons(p, c[0], rest, r);
    if c.len() == 1 {
        assert(poly_eval(p, rest, x) == 0);
        assert(poly_eval(p, rest, r) == 0);
        lemma_mul_zero_one(p, x);
        lemma_mul_zero_one(p, r);
        lemma_mul_zero_one(p, x ^ r);
        lemma_xor(c[0], 0, 0);
    } else {
        lemma_divide_out(p, rest, r, x);
        let q = divide_out(p, rest, r);
        let (rv, qv) = (poly_eval(p, rest, r), poly_eval(p, q, x));
        lemma_eval_cons(p, rv, q, x);
        // x * (rv + (x + r) qv) == x rv + x (x + r) qv
        let s = x ^ r;
        lemma_mul_distributes(p, rv, gf_mul(p, s, qv), x);
        // (x + r)(rv + x qv) == x rv + r rv + (x + r) x qv
        lemma_mul_distributes(p, rv, gf_mul(p, x, qv), s);
        lemma_mul_distributes(p, x, r, rv);
        lemma_mul_associates(p, s, x, qv);
        lemma_mul_commutes(p, s, x);
        lemma_mul_associates(p, x, s, qv);
        let (xr, rr, t) = (gf_mul(p, x, rv), gf_mul(p, r, rv), gf_mul(p, x, gf_mul(p, s, qv)));
        let c0 = c[0];
        assert(poly_eval(p, c, x) == c0 ^ (xr ^ t));
        assert(gf_mul(p, s, poly_eval(p, divide_out(p, c, r), x)) == (xr ^ rr) ^ t);
        lemma_divide_out_xor(c0, xr, rr, t);
    }
}

proof fn lemma_divide_out_xor(c0: u8, xr: u8, rr: u8, t: u8)
    ensures
        c0 ^ (xr ^ t) == (c0 ^ rr) ^ ((xr ^ rr) ^ t),
{
    lemma_xor(c0, rr, (xr ^ rr) ^ t);
    lemma_xor(xr, rr, t);
    lemma_xor(rr, xr, t);
    lemma_xor(rr, xr ^ t, 0);
}

/// A polynomial that vanishes at `r` and leaves a zero quotient is zero.
proof fn lemma_zero_quotient(p: u16, c: Seq<u8>, r: u8)
    requires
        is_primitive(p),
        poly_eval(p, c, r) == 0,
        forall|i: int| 0 <= i < c.len() - 1 ==> #[trigger] divide_out(p, c, r)[i] == 0,
    ensures
        forall|i: int| 0 <= i < c.len() ==> #[trigger] c[i] == 0,
    decreases c.len(),
{
    if c.len() > 0 {
        let rest = c.drop_first();
        assert(c =~= seq![c[0]] + rest);
        lemma_eval_cons(p, c[0], rest, r);
        lemma_divide_out(p, c, r, r);
        if c.len() == 1 {
            assert(poly_eval(p, rest, r) == 0);
        } else {
            assert(divide_out(p, c, r)[0] == 0);
            lemma_divide_out(p, rest, r, r);
            assert forall|i: int| 0 <= i < rest.len() - 1 implies #[trigger] divide_out(
                p,
                rest,
                r,
            )[i] == 0 by {
                assert(divide_out(p, c, r)[i + 1] == divide_out(p, rest, r)[i]);
            }
            lemma_zero_quotient(p, rest, r);
            assert forall|i: int| 1 <= i < c.len() implies #[trigger] c[i] == 0 by {
                assert(rest[i - 1] == 0);
            }
        }
        lemma_mul_zero_one(p, r);
        lemma_xor(c[0], 0, 0);
    }
}

/// A polynomial with as many distinct roots as coefficients is zero.
pub proof fn lemma_root_bound(p: u16, c: Seq<u8>, roots: Seq<u8>)
    requires
        is_primitive(p),
        distinct(roots),
        c.len() <= roots.len(),
        forall|t: int| 0 <= t < roots.len() ==> poly_eval(p, c, #[trigger] roots[t]) == 0,
    ensures
        forall|i: int| 0 <= i < c.len() ==> #[trigger] c[i] == 0,
    decreases c.len(),
{
    if c.len() > 0 {
        let r = roots.last();
        let fewer = roots.drop_last();
        let q = divide_out(p, c, r);
        assert(poly_eval(p, c, roots[roots.len() - 1]) == 0);
        lemma_divide_out(p, c, r, r);
        assert forall|t: int| 0 <= t < fewer.len() implies poly_eval(p, q, #[trigger] fewer[t])
            == 0 by {
            let x = roots[t];
            assert(poly_eval(p, c, x) == 0);
            assert(roots[t] != roots[roots.len() - 1]);
            lemma_divide_out(p, c, r, x);
            let s = gf_mul(p, x ^ r, poly_eval(p, q, x));
            lemma_xor(s, 0, 0);
            lemma_mul_nonzero(p, x ^ r, poly_eval(p, q, x));
            lemma_xor(x, r, 0);
        }
        lemma_root_bound(p, q, fewer);
        lemma_zero_quotient(p, c, r);
    }
}

} // verus!
