//! Polynomials over GF(2^8) as sequences of coefficients, low order first.

use super::galois::{
    gf_mul, gf_pow, is_primitive, lemma_mul_associates, lemma_mul_commutes, lemma_mul_distributes,
    lemma_mul_nonzero, lemma_mul_zero_one, lemma_pow_add, lemma_xor, lemma_xor4,
};
use super::sums::{
    gf_sum, lemma_sum_add, lemma_sum_ext, lemma_sum_scale, lemma_sum_single, lemma_sum_split,
    lemma_sum_swap, lemma_sum_zero_tail,
};
use vstd::prelude::*;

verus! {

/// The coefficient of x^i, which is 0 outside the sequence.
pub open spec fn coef(c: Seq<u8>, i: int) -> u8 {
    if 0 <= i < c.len() {
        c[i]
    } else {
        0
    }
}

/// The terms of `c` at the point `x`.
pub open spec fn eval_terms(p: u16, c: Seq<u8>, x: u8) -> spec_fn(int) -> u8 {
    |i: int| gf_mul(p, coef(c, i), gf_pow(p, x, i as nat))
}

/// The value of `c` at the point `x`.
pub open spec fn poly_eval(p: u16, c: Seq<u8>, x: u8) -> u8 {
    gf_sum(c.len(), eval_terms(p, c, x))
}

/// The terms of the coefficient of x^k in the product of `l` and `r`.
pub open spec fn conv_terms(p: u16, l: Seq<u8>, r: Seq<u8>, k: int) -> spec_fn(int) -> u8 {
    |i: int| gf_mul(p, coef(l, i), coef(r, k - i))
}

/// The coefficient of x^k in the product of `l` and `r`.
pub open spec fn conv(p: u16, l: Seq<u8>, r: Seq<u8>, k: int) -> u8 {
    gf_sum((k + 1) as nat, conv_terms(p, l, r, k))
}

/// The product of two polynomials.
pub open spec fn poly_mul(p: u16, l: Seq<u8>, r: Seq<u8>) -> Seq<u8> {
    Seq::new((l.len() + r.len() - 1) as nat, |k: int| conv(p, l, r, k))
}

/// The polynomial `(x + roots[0]) * (x + roots[1]) * ...`.
pub open spec fn roots_poly(p: u16, roots: Seq<u8>) -> Seq<u8>
    decreases roots.len(),
{
    if roots.len() == 0 {
        seq![1u8]
    } else {
        poly_mul(p, seq![roots.last(), 1u8], roots_poly(p, roots.drop_last()))
    }
}

/// The formal derivative: the coefficient of x^i is `i + 1` copies of the
/// coefficient of x^(i+1).
pub open spec fn poly_derivative(c: Seq<u8>) -> Seq<u8> {
    Seq::new(
        (c.len() - 1) as nat,
        |i: int| super::field::repeated_sum(c[i + 1], (i + 1) as nat),
    )
}

/// `rem` is what is left of `dividend` after taking out a multiple of
/// `divisor`, and its degree is below the divisor's.
pub open spec fn is_remainder(p: u16, dividend: Seq<u8>, divisor: Seq<u8>, rem: Seq<u8>) -> bool {
    &&& rem.len() == divisor.len() - 1
    &&& exists|q: Seq<u8>| #[trigger] is_quotient(p, dividend, divisor, q, rem)
}

/// `dividend == q * divisor + rem`, coefficient by coefficient.
pub open spec fn is_quotient(
    p: u16,
    dividend: Seq<u8>,
    divisor: Seq<u8>,
    q: Seq<u8>,
    rem: Seq<u8>,
) -> bool {
    &&& q.len() + divisor.len() == dividend.len() + 1 || (q.len() == 0 && dividend.len()
        < divisor.len())
    &&& forall|k: int|
        0 <= k < dividend.len() ==> #[trigger] dividend[k] == conv(p, q, divisor, k) ^ coef(rem, k)
}

/// Coefficients above the degree do not change the value.
pub proof fn lemma_eval_extend(p: u16, c: Seq<u8>, n: nat, x: u8)
    requires
        c.len() <= n,
    ensures
        gf_sum(n, eval_terms(p, c, x)) == poly_eval(p, c, x),
{
    reveal(gf_mul);
    lemma_sum_zero_tail(c.len(), n, eval_terms(p, c, x));
}

/// Two sequences with the same coefficients have the same value.
pub proof fn lemma_eval_same(p: u16, a: Seq<u8>, b: Seq<u8>, x: u8)
    requires
        forall|i: int| #[trigger] coef(a, i) == coef(b, i),
    ensures
        poly_eval(p, a, x) == poly_eval(p, b, x),
{
    let n = if a.len() <= b.len() {
        b.len()
    } else {
        a.len()
    };
    lemma_eval_extend(p, a, n, x);
    lemma_eval_extend(p, b, n, x);
    lemma_sum_ext(n, eval_terms(p, a, x), eval_terms(p, b, x));
}

/// Values add where coefficients do.
pub proof fn lemma_eval_add(p: u16, a: Seq<u8>, b: Seq<u8>, c: Seq<u8>, x: u8)
    requires
        is_primitive(p),
        forall|i: int| #[trigger] coef(c, i) == coef(a, i) ^ coef(b, i),
    ensures
        poly_eval(p, c, x) == poly_eval(p, a, x) ^ poly_eval(p, b, x),
{
    let n = a.len() + b.len() + c.len();
    lemma_eval_extend(p, a, n, x);
    lemma_eval_extend(p, b, n, x);
    lemma_eval_extend(p, c, n, x);
    assert forall|i: int| 0 <= i < n implies #[trigger] eval_terms(p, c, x)(i) == eval_terms(
        p,
        a,
        x,
    )(i) ^ eval_terms(p, b, x)(i) by {
        lemma_mul_distributes(p, coef(a, i), coef(b, i), gf_pow(p, x, i as nat));
        assert(coef(c, i) == coef(a, i) ^ coef(b, i));
    }
    lemma_sum_add(n, eval_terms(p, a, x), eval_terms(p, b, x), eval_terms(p, c, x));
}

/// At 0 only the constant term is left.
pub proof fn lemma_eval_zero(p: u16, c: Seq<u8>)
    requires
        is_primitive(p),
        c.len() > 0,
    ensures
        poly_eval(p, c, 0) == c[0],
{
    assert forall|i: int| 0 <= i < c.len() && i != 0 implies #[trigger] eval_terms(p, c, 0)(i)
        == 0 by {
        lemma_mul_zero_one(p, gf_pow(p, 0, (i - 1) as nat));
        lemma_mul_zero_one(p, coef(c, i));
    }
    lemma_sum_single(c.len(), 0, eval_terms(p, c, 0));
    lemma_mul_zero_one(p, c[0]);
}

/// The product's coefficient may be summed over any long enough range.
pub proof fn lemma_conv_range(p: u16, l: Seq<u8>, r: Seq<u8>, k: int, n: nat)
    requires
        k >= 0,
        n >= k + 1 || n >= l.len(),
    ensures
        gf_sum(n, conv_terms(p, l, r, k)) == conv(p, l, r, k),
{
    reveal(gf_mul);
    let m = (k + 1) as nat;
    let f = conv_terms(p, l, r, k);
    if n >= m {
        lemma_sum_zero_tail(m, n, f);
    } else {
        lemma_sum_zero_tail(n, m, f);
    }
}

/// The value of a product is the product of the values.
pub proof fn lemma_eval_mul(p: u16, l: Seq<u8>, r: Seq<u8>, x: u8)
    requires
        is_primitive(p),
        l.len() > 0,
        r.len() > 0,
    ensures
        poly_eval(p, poly_mul(p, l, r), x) == gf_mul(p, poly_eval(p, l, x), poly_eval(p, r, x)),
{
    let n = (l.len() + r.len() - 1) as nat;
    let c = poly_mul(p, l, r);
    let f = |k: int, i: int|
        gf_mul(p, gf_pow(p, x, k as nat), gf_mul(p, coef(l, i), coef(r, k - i)));
    let rows = eval_terms(p, c, x);
    assert forall|k: int| 0 <= k < n implies #[trigger] rows(k) == gf_sum(
        l.len(),
        |i: int| f(k, i),
    ) by {
        lemma_conv_range(p, l, r, k, l.len());
        lemma_sum_scale(
            p,
            l.len(),
            gf_pow(p, x, k as nat),
            conv_terms(p, l, r, k),
            |i: int| f(k, i),
        );
        lemma_mul_commutes(p, gf_pow(p, x, k as nat), conv(p, l, r, k));
    }
    let rx = poly_eval(p, r, x);
    let columns = |i: int| gf_mul(p, rx, eval_terms(p, l, x)(i));
    assert forall|i: int| 0 <= i < l.len() implies #[trigger] columns(i) == gf_sum(
        n,
        |k: int| f(k, i),
    ) by {
        lemma_eval_mul_column(p, l, r, x, i, n);
        let g = |k: int| gf_mul(p, gf_pow(p, x, k as nat), gf_mul(p, coef(l, i), coef(r, k - i)));
        lemma_sum_ext(n, |k: int| f(k, i), g);
    }
    lemma_sum_swap(n, l.len(), f, rows, columns);
    lemma_sum_scale(p, l.len(), rx, eval_terms(p, l, x), columns);
    lemma_mul_commutes(p, rx, poly_eval(p, l, x));
}

/// One column of the double sum: everything that the `i`th coefficient of `l`
/// contributes to the product's value.
proof fn lemma_eval_mul_column(p: u16, l: Seq<u8>, r: Seq<u8>, x: u8, i: int, n: nat)
    requires
        is_primitive(p),
        0 <= i < l.len(),
        n == l.len() + r.len() - 1,
    ensures
        gf_sum(
            n,
            |k: int| gf_mul(p, gf_pow(p, x, k as nat), gf_mul(p, coef(l, i), coef(r, k - i))),
        ) == gf_mul(p, poly_eval(p, r, x), gf_mul(p, coef(l, i), gf_pow(p, x, i as nat))),
{
    let g = |k: int| gf_mul(p, gf_pow(p, x, k as nat), gf_mul(p, coef(l, i), coef(r, k - i)));
    let a = gf_mul(p, coef(l, i), gf_pow(p, x, i as nat));
    let m = (n - i) as nat;
    let h = |j: int| g(i + j);
    lemma_sum_split(i as nat, m, g, h);
    assert forall|k: int| 0 <= k < i implies #[trigger] g(k) == 0 by {
        lemma_mul_zero_one(p, coef(l, i));
        lemma_mul_zero_one(p, gf_pow(p, x, k as nat));
    }
    lemma_sum_zero_tail(0, i as nat, g);
    let s = eval_terms(p, r, x);
    assert forall|j: int| 0 <= j < m implies #[trigger] h(j) == gf_mul(p, a, s(j)) by {
        let (b, c) = (coef(l, i), coef(r, j));
        let (xi, xj) = (gf_pow(p, x, i as nat), gf_pow(p, x, j as nat));
        lemma_pow_add(p, x, i as nat, j as nat);
        assert((i + j) as nat == i as nat + j as nat);
        // (xi * xj) * (b * c) == (b * xi) * (c * xj)
        lemma_mul_associates(p, xi, xj, gf_mul(p, b, c));
        lemma_mul_commutes(p, b, c);
        lemma_mul_associates(p, xj, c, b);
        lemma_mul_commutes(p, xj, c);
        lemma_mul_commutes(p, gf_mul(p, c, xj), b);
        lemma_mul_associates(p, xi, b, gf_mul(p, c, xj));
        lemma_mul_commutes(p, xi, b);
    }
    lemma_sum_scale(p, m, a, s, h);
    lemma_eval_extend(p, r, m, x);
    lemma_mul_commutes(p, a, poly_eval(p, r, x));
    lemma_xor(gf_sum(m, h), 0, 0);
}

/// The value of a linear factor.
proof fn lemma_eval_linear(p: u16, root: u8, x: u8)
    requires
        is_primitive(p),
    ensures
        poly_eval(p, seq![root, 1u8], x) == root ^ x,
{
    let c = seq![root, 1u8];
    let f = eval_terms(p, c, x);
    assert(gf_sum(2, f) == gf_sum(1, f) ^ f(1));
    assert(gf_sum(1, f) == gf_sum(0, f) ^ f(0));
    lemma_mul_zero_one(p, root);
    lemma_mul_zero_one(p, x);
    assert(gf_pow(p, x, 1) == gf_mul(p, x, gf_pow(p, x, 0)));
    lemma_xor(root, 0, 0);
}

/// A product of linear factors is monic of the right degree, and vanishes at
/// its roots and nowhere else.
pub proof fn lemma_roots_poly(p: u16, roots: Seq<u8>, x: u8)
    requires
        is_primitive(p),
    ensures
        roots_poly(p, roots).len() == roots.len() + 1,
        roots_poly(p, roots).last() == 1,
        poly_eval(p, roots_poly(p, roots), x) == 0 <==> roots.contains(x),
    decreases roots.len(),
{
    if roots.len() == 0 {
        let f = eval_terms(p, seq![1u8], x);
        assert(gf_sum(1, f) == gf_sum(0, f) ^ f(0));
        lemma_mul_zero_one(p, 1);
        lemma_xor(1, 0, 0);
    } else {
        let fewer = roots.drop_last();
        let r = roots_poly(p, fewer);
        let l = seq![roots.last(), 1u8];
        lemma_roots_poly(p, fewer, x);
        lemma_eval_mul(p, l, r, x);
        lemma_eval_linear(p, roots.last(), x);
        lemma_mul_nonzero(p, poly_eval(p, l, x), poly_eval(p, r, x));
        lemma_xor(roots.last(), x, 0);
        assert(roots.contains(x) <==> fewer.contains(x) || roots.last() == x) by {
            if roots.contains(x) {
                let i = choose|i: int| 0 <= i < roots.len() && roots[i] == x;
                if i < roots.len() - 1 {
                    assert(fewer[i] == x);
                }
            }
            if fewer.contains(x) {
                let i = choose|i: int| 0 <= i < fewer.len() && fewer[i] == x;
                assert(roots[i] == x);
            }
            if roots.last() == x {
                assert(roots[roots.len() - 1] == x);
            }
        }
        let top = roots.len() as int;
        let f = conv_terms(p, l, r, top);
        assert forall|i: int| 0 <= i < top + 1 && i != 1 implies #[trigger] f(i) == 0 by {
            lemma_mul_zero_one(p, coef(l, i));
            lemma_mul_zero_one(p, coef(r, top - i));
        }
        lemma_sum_single((top + 1) as nat, 1, f);
        lemma_mul_zero_one(p, 1);
    }
}

/// Where the divisor vanishes, dividend and remainder agree.
pub proof fn lemma_remainder_eval(p: u16, dividend: Seq<u8>, divisor: Seq<u8>, rem: Seq<u8>, x: u8)
    requires
        is_primitive(p),
        is_remainder(p, dividend, divisor, rem),
        rem.len() <= dividend.len(),
        divisor.len() > 0,
        poly_eval(p, divisor, x) == 0,
    ensures
        poly_eval(p, dividend, x) == poly_eval(p, rem, x),
{
    let q = choose|q: Seq<u8>| #[trigger] is_quotient(p, dividend, divisor, q, rem);
    let product = Seq::new(dividend.len(), |k: int| conv(p, q, divisor, k));
    assert forall|i: int| #[trigger] coef(dividend, i) == coef(product, i) ^ coef(rem, i) by {
        lemma_xor(0, 0, 0);
    }
    lemma_eval_add(p, product, rem, dividend, x);
    lemma_xor(0, poly_eval(p, rem, x), 0);
    if q.len() == 0 {
        assert forall|i: int| 0 <= i < product.len() implies #[trigger] eval_terms(
            p,
            product,
            x,
        )(i) == 0 by {
            assert forall|j: int| 0 <= j < i + 1 implies #[trigger] conv_terms(p, q, divisor, i)(j)
                == 0 by {
                lemma_mul_zero_one(p, coef(divisor, i - j));
            }
            lemma_sum_zero_tail(0, (i + 1) as nat, conv_terms(p, q, divisor, i));
            lemma_mul_zero_one(p, gf_pow(p, x, i as nat));
        }
        lemma_sum_zero_tail(0, product.len(), eval_terms(p, product, x));
    } else {
        assert(product =~= poly_mul(p, q, divisor));
        lemma_eval_mul(p, q, divisor, x);
        lemma_mul_zero_one(p, poly_eval(p, q, x));
    }
}

/// Products add where left factors do.
proof fn lemma_conv_add(p: u16, a: Seq<u8>, b: Seq<u8>, c: Seq<u8>, d: Seq<u8>, k: int)
    requires
        is_primitive(p),
        k >= 0,
        forall|i: int| #[trigger] coef(c, i) == coef(a, i) ^ coef(b, i),
    ensures
        conv(p, c, d, k) == conv(p, a, d, k) ^ conv(p, b, d, k),
{
    let (f, g, h) = (conv_terms(p, a, d, k), conv_terms(p, b, d, k), conv_terms(p, c, d, k));
    assert forall|i: int| 0 <= i < k + 1 implies #[trigger] h(i) == f(i) ^ g(i) by {
        assert(coef(c, i) == coef(a, i) ^ coef(b, i));
        lemma_mul_distributes(p, coef(a, i), coef(b, i), coef(d, k - i));
    }
    lemma_sum_add((k + 1) as nat, f, g, h);
}

/// A multiple of the divisor of degree below the divisor's is zero.
proof fn lemma_low_multiple(p: u16, q: Seq<u8>, d: Seq<u8>, from: int)
    requires
        is_primitive(p),
        d.len() >= 1,
        d.last() != 0,
        0 <= from <= q.len(),
        forall|k: int| d.len() - 1 <= k < q.len() + d.len() - 1 ==> #[trigger] conv(p, q, d, k)
            == 0,
    ensures
        forall|j: int| from <= j < q.len() ==> #[trigger] q[j] == 0,
    decreases q.len() - from,
{
    if from < q.len() {
        lemma_low_multiple(p, q, d, from + 1);
        let n = d.len() - 1;
        let k = from + n;
        let f = conv_terms(p, q, d, k);
        assert forall|i: int| 0 <= i < k + 1 && i != from implies #[trigger] f(i) == 0 by {
            lemma_mul_zero_one(p, coef(q, i));
            lemma_mul_zero_one(p, coef(d, k - i));
            if from < i < q.len() {
                assert(q[i] == 0);
            }
        }
        lemma_sum_single((k + 1) as nat, from, f);
        assert(conv(p, q, d, k) == 0);
        lemma_mul_nonzero(p, q[from], d.last());
    }
}

/// There is only one remainder.
pub proof fn lemma_remainder_unique(
    p: u16,
    dividend: Seq<u8>,
    divisor: Seq<u8>,
    r1: Seq<u8>,
    r2: Seq<u8>,
)
    requires
        is_primitive(p),
        is_remainder(p, dividend, divisor, r1),
        is_remainder(p, dividend, divisor, r2),
        1 <= divisor.len() <= dividend.len(),
        divisor.last() != 0,
    ensures
        r1 == r2,
{
    let q1 = choose|q: Seq<u8>| #[trigger] is_quotient(p, dividend, divisor, q, r1);
    let q2 = choose|q: Seq<u8>| #[trigger] is_quotient(p, dividend, divisor, q, r2);
    let q = Seq::new(q1.len(), |i: int| q1[i] ^ q2[i]);
    assert forall|i: int| #[trigger] coef(q, i) == coef(q1, i) ^ coef(q2, i) by {
        lemma_xor(0, 0, 0);
    }
    assert forall|k: int| 0 <= k < dividend.len() implies #[trigger] conv(p, q, divisor, k) == coef(
        r1,
        k,
    ) ^ coef(r2, k) by {
        lemma_conv_add(p, q1, q2, q, divisor, k);
        let (a, b, x, y) = (
            conv(p, q1, divisor, k),
            conv(p, q2, divisor, k),
            coef(r1, k),
            coef(r2, k),
        );
        assert(dividend[k] == a ^ x);
        assert(dividend[k] == b ^ y);
        lemma_xor4(a, x, b, y);
        lemma_xor(a ^ x, a ^ x, 0);
        lemma_xor(a ^ b, x ^ y, 0);
    }
    assert forall|k: int|
        divisor.len() - 1 <= k < q.len() + divisor.len() - 1 implies #[trigger] conv(
        p,
        q,
        divisor,
        k,
    ) == 0 by {
        lemma_xor(0, 0, 0);
    }
    lemma_low_multiple(p, q, divisor, 0);
    assert forall|k: int| 0 <= k < r1.len() implies r1[k] == r2[k] by {
        let f = conv_terms(p, q, divisor, k);
        assert forall|i: int| 0 <= i < k + 1 implies #[trigger] f(i) == 0 by {
            lemma_mul_zero_one(p, coef(divisor, k - i));
            if i < q.len() {
                assert(q[i] == 0);
            }
        }
        lemma_sum_zero_tail(0, (k + 1) as nat, f);
        assert(conv(p, q, divisor, k) == coef(r1, k) ^ coef(r2, k));
        lemma_xor(r1[k], r2[k], 0);
    }
    assert(r1 =~= r2);
}

} // verus!
