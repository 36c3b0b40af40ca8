//! Polynomial arithmetic over GF(2^8).

use super::field::{
    lemma_repeated_sum, log_sum, repeated_sum, Field, FieldElement, FieldLogarithm,
};
use super::galois::{
    alpha_pow, gf_div, gf_log, gf_mul, gf_pow, is_primitive, lemma_alpha_distinct,
    lemma_alpha_period, lemma_div, lemma_log, lemma_mul_alpha, lemma_mul_commutes,
    lemma_mul_nonzero, lemma_mul_zero_one, lemma_pow_nonzero, lemma_xor,
};
use super::poly_model::{
    coef, conv, conv_terms, eval_terms, is_quotient, is_remainder, lemma_conv_range,
    lemma_eval_zero, poly_eval, poly_mul, roots_poly,
};
use super::sums::{gf_sum, lemma_sum_add, lemma_sum_ext, lemma_sum_single};
use vstd::prelude::*;

verus! {

/// A borrowed, read-only polynomial: `order + 1` coefficients, low order first.
#[derive(Clone, Copy)]
pub struct Polynomial<'a> {
    pub coeff: &'a [FieldElement],
    pub order: usize,
}

impl<'a> Polynomial<'a> {
    /// The slice is long enough for the stated order.
    pub open spec fn wf(self) -> bool {
        self.order < self.coeff@.len()
    }

    /// The coefficients that belong to the polynomial.
    pub open spec fn coeffs(self) -> Seq<u8> {
        self.coeff@.take(self.order + 1)
    }

    pub fn new(coeff: &'a [FieldElement], order: usize) -> (poly: Polynomial<'a>)
        ensures
            poly.coeff == coeff,
            poly.order == order,
    {
        Polynomial { coeff, order }
    }
}

/// Multiplies `l` by `r`, keeping the coefficients up to x^`res_order`. With
/// `res_order == l.order + r.order` that is the full product; with less it is
/// the product modulo x^(`res_order` + 1).
pub fn polynomial_mul(
    field: &Field,
    l: &Polynomial,
    r: &Polynomial,
    res: &mut [FieldElement],
    res_order: usize,
)
    requires
        field.wf(),
        l.wf(),
        r.wf(),
        res_order < old(res)@.len(),
    ensures
        final(res)@.len() == old(res)@.len(),
        forall|k: int|
            0 <= k <= res_order ==> #[trigger] final(res)@[k] == conv(
                field.modulus(),
                l.coeffs(),
                r.coeffs(),
                k,
            ),
        forall|k: int| res_order < k < old(res)@.len() ==> #[trigger] final(res)@[k] == old(res)@[k],
{
    let ghost p = field.modulus();
    let ghost lc = l.coeffs();
    let ghost rc = r.coeffs();
    let ghost before = res@;
    let len: usize = res.len();
    let mut c: usize = 0;
    while c < res_order + 1
        invariant
            c <= res_order + 1,
            res_order < res@.len(),
            res@.len() == before.len() == len,
            forall|k: int| 0 <= k < c ==> #[trigger] res@[k] == 0,
            forall|k: int| c <= k < res@.len() ==> #[trigger] res@[k] == before[k],
        decreases res_order + 1 - c,
    {
        res[c] = 0;
        c = c + 1;
    }
    let mut i: usize = 0;
    while i <= l.order && i <= res_order
        invariant
            field.wf(),
            l.wf(),
            r.wf(),
            p == field.modulus(),
            lc == l.coeffs(),
            rc == r.coeffs(),
            i <= l.order + 1,
            i <= res_order + 1,
            res_order < res@.len(),
            res@.len() == before.len() == len,
            forall|k: int|
                0 <= k <= res_order ==> #[trigger] res@[k] == gf_sum(
                    i as nat,
                    conv_terms(p, lc, rc, k),
                ),
            forall|k: int| res_order < k < res@.len() ==> #[trigger] res@[k] == before[k],
        decreases l.order + 1 - i,
    {
        let j_limit: usize = if r.order > res_order - i {
            res_order - i
        } else {
            r.order
        };
        let mut j: usize = 0;
        while j <= j_limit
            invariant
                field.wf(),
                l.wf(),
                r.wf(),
                p == field.modulus(),
                lc == l.coeffs(),
                rc == r.coeffs(),
                i <= l.order,
                i <= res_order,
                j <= j_limit + 1,
                j_limit <= r.order,
                i + j_limit <= res_order,
                res_order < res@.len(),
                res@.len() == before.len(),
                forall|k: int|
                    0 <= k <= res_order && !(i + j <= k) ==> #[trigger] res@[k] == gf_sum(
                        if i <= k {
                            (i + 1) as nat
                        } else {
                            i as nat
                        },
                        conv_terms(p, lc, rc, k),
                    ),
                forall|k: int|
                    i + j <= k <= res_order ==> #[trigger] res@[k] == gf_sum(
                        i as nat,
                        conv_terms(p, lc, rc, k),
                    ),
                forall|k: int| res_order < k < res@.len() ==> #[trigger] res@[k] == before[k],
            decreases j_limit + 1 - j,
        {
            let term: u8 = field.mul(l.coeff[i], r.coeff[j]);
            let sum: u8 = field.add(res[i + j], term);
            assert(term == conv_terms(p, lc, rc, (i + j) as int)(i as int));
            res[i + j] = sum;
            j = j + 1;
        }
        assert forall|k: int| 0 <= k <= res_order implies #[trigger] res@[k] == gf_sum(
            (i + 1) as nat,
            conv_terms(p, lc, rc, k),
        ) by {
            let f = conv_terms(p, lc, rc, k);
            if k < i || k > i + j_limit {
                reveal(gf_mul);
                assert(f(i as int) == 0);
                lemma_xor(gf_sum(i as nat, f), 0, 0);
            }
        }
        i = i + 1;
    }
    proof {
        assert forall|k: int| 0 <= k <= res_order implies #[trigger] res@[k] == conv(
            p,
            lc,
            rc,
            k,
        ) by {
            lemma_conv_range(p, lc, rc, k, i as nat);
        }
    }
}

/// Changing one zero coefficient of the quotient changes the product by that
/// multiple of the divisor.
proof fn lemma_conv_update(p: u16, q: Seq<u8>, d: Seq<u8>, at: int, c: u8, k: int)
    requires
        is_primitive(p),
        0 <= at < q.len(),
        q[at] == 0,
        k >= 0,
    ensures
        conv(p, q.update(at, c), d, k) == conv(p, q, d, k) ^ gf_mul(p, c, coef(d, k - at)),
{
    let g = |i: int|
        if i == at {
            gf_mul(p, c, coef(d, k - at))
        } else {
            0u8
        };
    let n = (k + 1 + q.len()) as nat;
    let q2 = q.update(at, c);
    lemma_conv_range(p, q, d, k, n);
    lemma_conv_range(p, q2, d, k, n);
    assert forall|i: int| 0 <= i < n implies #[trigger] conv_terms(p, q2, d, k)(i) == conv_terms(
        p,
        q,
        d,
        k,
    )(i) ^ g(i) by {
        lemma_mul_zero_one(p, coef(d, k - i));
        lemma_xor(conv_terms(p, q, d, k)(i), 0, 0);
        lemma_xor(gf_mul(p, c, coef(d, k - at)), 0, 0);
    }
    lemma_sum_add(n, conv_terms(p, q, d, k), g, conv_terms(p, q2, d, k));
    lemma_sum_single(n, at, g);
}

/// The logarithm of a quotient, as `div_log` computes it.
proof fn lemma_div_log(p: u16, a: u8, b: u8)
    requires
        is_primitive(p),
        a != 0,
        b != 0,
    ensures
        log_sum(gf_log(p, a) as int, 255 - gf_log(p, b)) >= 0,
        alpha_pow(p, log_sum(gf_log(p, a) as int, 255 - gf_log(p, b)) as nat) == gf_div(p, a, b),
{
    reveal(gf_div);
    lemma_log(p, a);
    lemma_log(p, b);
    lemma_alpha_period(p, log_sum(gf_log(p, a) as int, 255 - gf_log(p, b)) as nat);
}

/// Multiplying an element by a power of alpha through its logarithm.
proof fn lemma_mul_log(p: u16, a: u8, e: nat)
    requires
        is_primitive(p),
        a != 0,
    ensures
        alpha_pow(p, gf_log(p, a) + e) == gf_mul(p, a, alpha_pow(p, e)),
{
    lemma_log(p, a);
    lemma_mul_alpha(p, gf_log(p, a), e);
}

/// Long division: leaves in `mod_` the remainder of `dividend` modulo
/// `divisor`, using the coefficients up to the dividend's order as scratch
/// space. Nothing happens where `mod_order` says that there is too little of
/// it. The constant term is never divided, which matters only for a divisor of
/// order 0.
pub fn polynomial_mod(
    field: &Field,
    dividend: &Polynomial,
    divisor: &Polynomial,
    mod_: &mut [FieldElement],
    mod_order: usize,
)
    requires
        field.wf(),
        is_primitive(field.modulus()),
        dividend.wf(),
        divisor.wf(),
        divisor.coeff@[divisor.order as int] != 0,
        mod_order < old(mod_)@.len(),
    ensures
        final(mod_)@.len() == old(mod_)@.len(),
        mod_order < dividend.order ==> final(mod_)@ == old(mod_)@,
        mod_order >= dividend.order ==> {
            &&& divisor.order > 0 && divisor.order <= dividend.order + 1 ==> is_remainder(
                field.modulus(),
                dividend.coeffs(),
                divisor.coeffs(),
                final(mod_)@.take(divisor.order as int),
            )
            &&& divisor.order == 0 ==> final(mod_)@[0] == dividend.coeff@[0]
            &&& divisor.order > dividend.order ==> final(mod_)@.take(dividend.order + 1)
                == dividend.coeffs()
            &&& forall|k: int|
                k >= divisor.order && 0 < k <= dividend.order ==> #[trigger] final(mod_)@[k] == 0
            &&& forall|k: int|
                dividend.order < k < old(mod_)@.len() ==> #[trigger] final(mod_)@[k]
                    == old(mod_)@[k]
        },
{
    if mod_order < dividend.order {
        return;
    }
    let ghost p = field.modulus();
    let ghost before = mod_@;
    let ghost a = dividend.coeffs();
    let ghost d = divisor.coeffs();
    let mut c: usize = 0;
    while c <= dividend.order
        invariant
            c <= dividend.order + 1,
            dividend.wf(),
            dividend.order < mod_@.len(),
            mod_@.len() == before.len(),
            a == dividend.coeffs(),
            forall|k: int| 0 <= k < c ==> #[trigger] mod_@[k] == a[k],
            forall|k: int| c <= k < mod_@.len() ==> #[trigger] mod_@[k] == before[k],
        decreases dividend.order + 1 - c,
    {
        mod_[c] = dividend.coeff[c];
        c = c + 1;
    }

    let divisor_leading: FieldLogarithm = field.log[divisor.coeff[divisor.order] as usize];
    let ghost mut q: Seq<u8> = Seq::new(
        (if divisor.order <= dividend.order {
            dividend.order - divisor.order + 1
        } else {
            0
        }) as nat,
        |i: int| 0u8,
    );
    proof {
        assert forall|k: int| 0 <= k <= dividend.order implies #[trigger] a[k] == conv(p, q, d, k)
            ^ mod_@[k] by {
            reveal(gf_mul);
            super::sums::lemma_sum_zero_tail(0, (k + 1) as nat, conv_terms(p, q, d, k));
            lemma_xor(mod_@[k], 0, 0);
        }
    }
    let mut i: usize = dividend.order;
    while i > 0 && i >= divisor.order
        invariant
            field.wf(),
            p == field.modulus(),
            is_primitive(p),
            dividend.wf(),
            divisor.wf(),
            a == dividend.coeffs(),
            d == divisor.coeffs(),
            divisor.coeff@[divisor.order as int] != 0,
            divisor_leading == gf_log(p, divisor.coeff@[divisor.order as int]),
            i <= dividend.order,
            dividend.order < mod_@.len(),
            mod_@.len() == before.len(),
            divisor.order <= dividend.order ==> q.len() == dividend.order - divisor.order + 1,
            divisor.order > dividend.order ==> q.len() == 0 && i == dividend.order,
            divisor.order > dividend.order ==> forall|k: int|
                0 <= k <= dividend.order ==> #[trigger] mod_@[k] == a[k],
            divisor.order == 0 ==> mod_@[0] == a[0],
            forall|k: int|
                0 <= k <= dividend.order ==> #[trigger] a[k] == conv(p, q, d, k) ^ mod_@[k],
            forall|k: int| 0 <= k < q.len() && k <= i - divisor.order ==> #[trigger] q[k] == 0,
            forall|k: int| i < k <= dividend.order ==> #[trigger] mod_@[k] == 0,
            forall|k: int| dividend.order < k < mod_@.len() ==> #[trigger] mod_@[k] == before[k],
        decreases i,
    {
        if mod_[i] == 0 {
            i = i - 1;
            continue;
        }
        let q_order: usize = i - divisor.order;
        let lead: u8 = mod_[i];
        let q_coeff: FieldLogarithm = field.div_log(field.log[lead as usize], divisor_leading);
        let ghost qc = gf_div(p, lead, d[divisor.order as int]);
        let ghost row = mod_@;
        proof {
            lemma_div_log(p, lead, d[divisor.order as int]);
        }
        let mut t: usize = 0;
        while t <= divisor.order
            invariant
                field.wf(),
                p == field.modulus(),
                is_primitive(p),
                divisor.wf(),
                d == divisor.coeffs(),
                t <= divisor.order + 1,
                q_order + divisor.order <= dividend.order,
                dividend.order < mod_@.len(),
                mod_@.len() == row.len(),
                alpha_pow(p, q_coeff as nat) == qc,
                forall|k: int|
                    0 <= k < mod_@.len() ==> #[trigger] mod_@[k] == if q_order <= k < q_order + t {
                        row[k] ^ gf_mul(p, qc, coef(d, k - q_order))
                    } else {
                        row[k]
                    },
            decreases divisor.order + 1 - t,
        {
            let dt: u8 = divisor.coeff[t];
            assert(d[t as int] == dt);
            proof {
                lemma_mul_zero_one(p, qc);
                lemma_xor(mod_@[q_order + t], 0, 0);
            }
            if dt != 0 {
                let log_dt: u8 = field.log[dt as usize];
                let m: u8 = field.add(mod_[q_order + t], field.mul_log_element(log_dt, q_coeff));
                proof {
                    lemma_mul_log(p, dt, q_coeff as nat);
                    lemma_mul_commutes(p, dt, qc);
                }
                mod_[q_order + t] = m;
            }
            t = t + 1;
        }
        proof {
            lemma_div(p, lead, d[divisor.order as int]);
            lemma_xor(lead, lead, 0);
            assert(mod_@[i as int] == 0);
            let q2 = q.update(q_order as int, qc);
            assert forall|k: int| 0 <= k <= dividend.order implies #[trigger] a[k] == conv(
                p,
                q2,
                d,
                k,
            ) ^ mod_@[k] by {
                lemma_conv_update(p, q, d, q_order as int, qc, k);
                lemma_mul_zero_one(p, qc);
                let v = gf_mul(p, qc, coef(d, k - q_order));
                lemma_xor(conv(p, q, d, k), v, row[k] ^ v);
                lemma_xor(row[k], v, v);
                lemma_xor(v, row[k], v);
                lemma_xor(row[k], 0, 0);
                lemma_xor(conv(p, q, d, k), 0, 0);
                assert(row[k] == mod_@[k] ^ v);
            }
            q = q2;
        }
        i = i - 1;
    }
    proof {
        if divisor.order > 0 && divisor.order <= dividend.order + 1 {
            let rem = mod_@.take(divisor.order as int);
            assert(is_quotient(p, a, d, q, rem));
        }
        if divisor.order > dividend.order {
            assert(mod_@.take(dividend.order + 1) =~= a);
        }
    }
}

/// The formal derivative: `der[i]` is `i + 1` copies of the coefficient of
/// x^(i+1).
pub fn polynomial_formal_derivative(
    field: &Field,
    poly: &Polynomial,
    der: &mut [FieldElement],
    der_order: usize,
)
    requires
        der_order < old(der)@.len(),
        der_order + 1 < poly.coeff@.len(),
    ensures
        final(der)@.len() == old(der)@.len(),
        forall|i: int|
            0 <= i <= der_order ==> #[trigger] final(der)@[i] == repeated_sum(
                poly.coeff@[i + 1],
                (i + 1) as nat,
            ),
        forall|i: int|
            0 <= i <= der_order ==> #[trigger] final(der)@[i] == if i % 2 == 0 {
                poly.coeff@[i + 1]
            } else {
                0
            },
        forall|i: int| der_order < i < old(der)@.len() ==> #[trigger] final(der)@[i] == old(der)@[i],
{
    let ghost before = der@;
    let len: usize = der.len();
    let mut i: usize = 0;
    while i <= der_order
        invariant
            i <= der_order + 1,
            der_order < der@.len(),
            der@.len() == before.len() == len,
            der_order + 1 < poly.coeff@.len(),
            forall|k: int|
                0 <= k < i ==> #[trigger] der@[k] == repeated_sum(
                    poly.coeff@[k + 1],
                    (k + 1) as nat,
                ),
            forall|k: int| i <= k < der@.len() ==> #[trigger] der@[k] == before[k],
        decreases der_order + 1 - i,
    {
        let parity: u32 = ((i + 1) % 2) as u32;
        proof {
            lemma_repeated_sum(poly.coeff@[i + 1], parity as nat);
            lemma_repeated_sum(poly.coeff@[i + 1], (i + 1) as nat);
        }
        der[i] = field.sum(poly.coeff[i + 1], parity);
        i = i + 1;
    }
    assert forall|k: int| 0 <= k <= der_order implies #[trigger] der@[k] == (if k % 2 == 0 {
        poly.coeff@[k + 1]
    } else {
        0
    }) by {
        lemma_repeated_sum(poly.coeff@[k + 1], (k + 1) as nat);
    }
}

/// The logarithm of a product, as `mul_log` computes it.
proof fn lemma_log_product(p: u16, a: u8, b: u8)
    requires
        is_primitive(p),
        a != 0,
        b != 0,
    ensures
        log_sum(gf_log(p, a) as int, gf_log(p, b) as int) == gf_log(p, gf_mul(p, a, b)),
{
    lemma_log(p, a);
    lemma_log(p, b);
    let s = log_sum(gf_log(p, a) as int, gf_log(p, b) as int) as nat;
    reveal(gf_mul);
    lemma_alpha_period(p, s);
    let c = gf_mul(p, a, b);
    lemma_mul_nonzero(p, a, b);
    lemma_log(p, c);
    lemma_alpha_distinct(p, s, gf_log(p, c));
}

/// Evaluates the polynomial at `val`.
pub fn polynomial_eval(field: &Field, poly: &Polynomial, val: FieldElement) -> (res: FieldElement)
    requires
        field.wf(),
        is_primitive(field.modulus()),
        poly.wf(),
    ensures
        res == poly_eval(field.modulus(), poly.coeffs(), val),
{
    let ghost p = field.modulus();
    let ghost c = poly.coeffs();
    if val == 0 {
        proof {
            lemma_eval_zero(p, c);
        }
        return poly.coeff[0];
    }
    let mut res: FieldElement = 0;
    let mut val_exponentiated: FieldLogarithm = field.log[1];
    let val_log: FieldLogarithm = field.log[val as usize];
    let mut i: usize = 0;
    while i <= poly.order
        invariant
            field.wf(),
            p == field.modulus(),
            is_primitive(p),
            poly.wf(),
            c == poly.coeffs(),
            i <= poly.order + 1,
            val != 0,
            val_log == gf_log(p, val),
            val_exponentiated == gf_log(p, gf_pow(p, val, i as nat)),
            res == gf_sum(i as nat, eval_terms(p, c, val)),
        decreases poly.order + 1 - i,
    {
        let ci: u8 = poly.coeff[i];
        let ghost v = gf_pow(p, val, i as nat);
        proof {
            assert(c[i as int] == ci);
            lemma_pow_nonzero(p, val, i as nat);
            lemma_log(p, v);
            lemma_mul_zero_one(p, v);
            lemma_xor(res, 0, 0);
        }
        if ci != 0 {
            proof {
                lemma_mul_log(p, ci, val_exponentiated as nat);
            }
            let log_ci: u8 = field.log[ci as usize];
            res = field.add(res, field.mul_log_element(log_ci, val_exponentiated));
        }
        proof {
            lemma_log_product(p, v, val);
            lemma_mul_commutes(p, val, v);
        }
        val_exponentiated = field.mul_log(val_exponentiated, val_log);
        i = i + 1;
    }
    res
}

/// Entry `i` of the table of successive powers of `val`, in logarithms; for the
/// element 0 every entry is 0.
pub open spec fn lut_entry(p: u16, val: u8, i: int) -> nat {
    if val == 0 {
        0
    } else {
        gf_log(p, gf_pow(p, val, i as nat))
    }
}

/// The first `n` entries of `lut` are the logarithms of successive powers of
/// `val`.
pub open spec fn is_exp_lut(p: u16, val: u8, lut: Seq<u8>, n: int) -> bool {
    &&& n <= lut.len()
    &&& forall|i: int| 0 <= i < n ==> #[trigger] lut[i] == lut_entry(p, val, i)
}

/// What evaluation through a table of powers computes, for coefficients `c`.
pub open spec fn lut_eval(p: u16, c: Seq<u8>, lut: Seq<u8>) -> u8 {
    if lut[0] == 0 {
        c[0]
    } else {
        gf_sum(
            c.len(),
            |i: int|
                if c[i] == 0 {
                    0u8
                } else {
                    alpha_pow(p, (gf_log(p, c[i]) + lut[i]) as nat)
                },
        )
    }
}

/// What evaluation through a table of powers computes, for coefficients given
/// by their logarithms, with 0 standing for the coefficient 0.
pub open spec fn log_lut_eval(p: u16, c: Seq<u8>, lut: Seq<u8>) -> u8 {
    if lut[0] == 0 {
        if c[0] == 0 {
            0
        } else {
            alpha_pow(p, c[0] as nat)
        }
    } else {
        gf_sum(
            c.len(),
            |i: int|
                if c[i] == 0 {
                    0u8
                } else {
                    alpha_pow(p, (c[i] + lut[i]) as nat)
                },
        )
    }
}

/// With a table of the powers of `val`, that is evaluation at `val`.
pub proof fn lemma_lut_eval(p: u16, c: Seq<u8>, lut: Seq<u8>, val: u8, n: int)
    requires
        is_primitive(p),
        0 < c.len() <= n,
        is_exp_lut(p, val, lut, n),
    ensures
        lut_eval(p, c, lut) == poly_eval(p, c, val),
{
    assert(lut[0] == lut_entry(p, val, 0));
    lemma_log(p, 1);
    if val == 0 {
        lemma_eval_zero(p, c);
    } else {
        let f = |i: int|
            if c[i] == 0 {
                0u8
            } else {
                alpha_pow(p, (gf_log(p, c[i]) + lut[i]) as nat)
            };
        assert forall|i: int| 0 <= i < c.len() implies #[trigger] f(i) == eval_terms(p, c, val)(
            i,
        ) by {
            let v = gf_pow(p, val, i as nat);
            assert(lut[i] == lut_entry(p, val, i));
            lemma_pow_nonzero(p, val, i as nat);
            lemma_log(p, v);
            lemma_mul_zero_one(p, v);
            if c[i] != 0 {
                lemma_mul_log(p, c[i], lut[i] as nat);
            }
        }
        lemma_sum_ext(c.len(), f, eval_terms(p, c, val));
    }
}

/// The same for coefficients given by their logarithms.
pub proof fn lemma_log_lut_eval(p: u16, logs: Seq<u8>, c: Seq<u8>, lut: Seq<u8>, val: u8, n: int)
    requires
        is_primitive(p),
        0 < c.len() <= n,
        logs.len() == c.len(),
        forall|i: int| 0 <= i < c.len() ==> #[trigger] logs[i] == gf_log(p, c[i]),
        is_exp_lut(p, val, lut, n),
    ensures
        log_lut_eval(p, logs, lut) == poly_eval(p, c, val),
{
    lemma_lut_eval(p, c, lut, val, n);
    lemma_log(p, c[0]);
    assert(logs[0] == gf_log(p, c[0]));
    if lut[0] != 0 {
        let f = |i: int|
            if c[i] == 0 {
                0u8
            } else {
                alpha_pow(p, (gf_log(p, c[i]) + lut[i]) as nat)
            };
        let g = |i: int|
            if logs[i] == 0 {
                0u8
            } else {
                alpha_pow(p, (logs[i] + lut[i]) as nat)
            };
        assert forall|i: int| 0 <= i < c.len() implies #[trigger] g(i) == f(i) by {
            assert(logs[i] == gf_log(p, c[i]));
            lemma_log(p, c[i]);
        }
        lemma_sum_ext(c.len(), g, f);
    }
}

/// Evaluates the polynomial through a table of the logarithms of successive
/// powers of the point.
pub fn polynomial_eval_lut(
    field: &Field,
    poly: &Polynomial,
    val_exp: &[FieldLogarithm],
) -> (res: FieldElement)
    requires
        field.wf(),
        poly.wf(),
        poly.order < val_exp@.len(),
    ensures
        res == lut_eval(field.modulus(), poly.coeffs(), val_exp@),
{
    if val_exp[0] == 0 {
        return poly.coeff[0];
    }
    let ghost p = field.modulus();
    let ghost c = poly.coeffs();
    let ghost f = |i: int|
        if c[i] == 0 {
            0u8
        } else {
            alpha_pow(p, (gf_log(p, c[i]) + val_exp@[i]) as nat)
        };
    let mut res: FieldElement = 0;
    let mut i: usize = 0;
    while i <= poly.order
        invariant
            field.wf(),
            p == field.modulus(),
            poly.wf(),
            c == poly.coeffs(),
            poly.order < val_exp@.len(),
            i <= poly.order + 1,
            f == (|i: int|
                if c[i] == 0 {
                    0u8
                } else {
                    alpha_pow(p, (gf_log(p, c[i]) + val_exp@[i]) as nat)
                }),
            res == gf_sum(i as nat, f),
        decreases poly.order + 1 - i,
    {
        let ci: u8 = poly.coeff[i];
        proof {
            assert(c[i as int] == ci);
            lemma_xor(res, 0, 0);
        }
        if ci != 0 {
            let log_ci: u8 = field.log[ci as usize];
            res = field.add(res, field.mul_log_element(log_ci, val_exp[i]));
        }
        assert(gf_sum((i + 1) as nat, f) == gf_sum(i as nat, f) ^ f(i as int));
        i = i + 1;
    }
    res
}

/// Evaluates a polynomial whose coefficients are given by their logarithms,
/// through a table of the logarithms of successive powers of the point.
pub fn polynomial_eval_log_lut(
    field: &Field,
    poly_log: &Polynomial,
    val_exp: &[FieldLogarithm],
) -> (res: FieldElement)
    requires
        field.wf(),
        poly_log.wf(),
        poly_log.order < val_exp@.len(),
    ensures
        res == log_lut_eval(field.modulus(), poly_log.coeffs(), val_exp@),
{
    if val_exp[0] == 0 {
        if poly_log.coeff[0] == 0 {
            return 0;
        }
        return field.exp[poly_log.coeff[0] as usize];
    }
    let ghost p = field.modulus();
    let ghost c = poly_log.coeffs();
    let ghost f = |i: int|
        if c[i] == 0 {
            0u8
        } else {
            alpha_pow(p, (c[i] + val_exp@[i]) as nat)
        };
    let mut res: FieldElement = 0;
    let mut i: usize = 0;
    while i <= poly_log.order
        invariant
            field.wf(),
            p == field.modulus(),
            poly_log.wf(),
            c == poly_log.coeffs(),
            poly_log.order < val_exp@.len(),
            i <= poly_log.order + 1,
            f == (|i: int|
                if c[i] == 0 {
                    0u8
                } else {
                    alpha_pow(p, (c[i] + val_exp@[i]) as nat)
                }),
            res == gf_sum(i as nat, f),
        decreases poly_log.order + 1 - i,
    {
        let ci: u8 = poly_log.coeff[i];
        proof {
            assert(c[i as int] == ci);
            lemma_xor(res, 0, 0);
        }
        if ci != 0 {
            res = field.add(res, field.mul_log_element(ci, val_exp[i]));
        }
        assert(gf_sum((i + 1) as nat, f) == gf_sum(i as nat, f) ^ f(i as int));
        i = i + 1;
    }
    res
}

/// Fills `val_exp[0..=order]` with the logarithms of successive powers of
/// `val`.
pub fn polynomial_build_exp_lut(
    field: &Field,
    val: FieldElement,
    order: usize,
    val_exp: &mut [FieldLogarithm],
)
    requires
        field.wf(),
        is_primitive(field.modulus()),
        order < old(val_exp)@.len(),
    ensures
        final(val_exp)@.len() == old(val_exp)@.len(),
        is_exp_lut(field.modulus(), val, final(val_exp)@, order + 1),
        forall|i: int|
            order < i < old(val_exp)@.len() ==> #[trigger] final(val_exp)@[i] == old(val_exp)@[i],
{
    let ghost p = field.modulus();
    let ghost before = val_exp@;
    let mut val_exponentiated: FieldLogarithm = field.log[1];
    let val_log: FieldLogarithm = field.log[val as usize];
    let mut i: usize = 0;
    while i <= order
        invariant
            field.wf(),
            p == field.modulus(),
            is_primitive(p),
            i <= order + 1,
            order < val_exp@.len(),
            val_exp@.len() == before.len(),
            val_log == gf_log(p, val),
            val != 0 ==> val_exponentiated == gf_log(p, gf_pow(p, val, i as nat)),
            forall|k: int| 0 <= k < i ==> #[trigger] val_exp@[k] == lut_entry(p, val, k),
            forall|k: int| i <= k < val_exp@.len() ==> #[trigger] val_exp@[k] == before[k],
        decreases order + 1 - i,
    {
        if val == 0 {
            val_exp[i] = 0;
        } else {
            val_exp[i] = val_exponentiated;
            proof {
                let v = gf_pow(p, val, i as nat);
                lemma_pow_nonzero(p, val, i as nat);
                lemma_log_product(p, v, val);
                lemma_mul_commutes(p, val, v);
            }
            val_exponentiated = field.mul_log(val_exponentiated, val_log);
        }
        i = i + 1;
    }
}

/// Multiplies `prev[0..=prev_order]` by `x + root` into `cur`.
fn multiply_by_root(
    field: &Field,
    root: FieldElement,
    prev: &[FieldElement],
    prev_order: usize,
    cur: &mut [FieldElement],
)
    requires
        field.wf(),
        prev_order < prev@.len(),
        prev_order + 1 < old(cur)@.len(),
    ensures
        final(cur)@.len() == old(cur)@.len(),
        final(cur)@.take(prev_order + 2) == poly_mul(
            field.modulus(),
            seq![root, 1u8],
            prev@.take(prev_order + 1),
        ),
{
    let ghost len = cur.len();
    let l_coeff: [FieldElement; 2] = [root, 1];
    let l = Polynomial::new(&l_coeff, 1);
    let r = Polynomial::new(prev, prev_order);
    assert(l.coeffs() =~= seq![root, 1u8]);
    polynomial_mul(field, &l, &r, cur, prev_order + 1);
    assert(cur@.take(prev_order + 2) =~= poly_mul(
        field.modulus(),
        seq![root, 1u8],
        prev@.take(prev_order + 1),
    ));
}

/// Multiplies out `(x + roots[0]) * (x + roots[1]) * ...`, over the first
/// `nroots` roots, one factor at a time. The two scratch slices hold the
/// running product in turn.
pub fn polynomial_init_from_roots(
    field: &Field,
    nroots: usize,
    roots: &[FieldElement],
    poly: &mut [FieldElement],
    scratch0: &mut [FieldElement],
    scratch1: &mut [FieldElement],
)
    requires
        field.wf(),
        is_primitive(field.modulus()),
        1 <= nroots <= roots@.len(),
        nroots < old(poly)@.len(),
        nroots < old(scratch0)@.len(),
        nroots < old(scratch1)@.len(),
    ensures
        final(poly)@.len() == old(poly)@.len(),
        final(poly)@.take(nroots + 1) == roots_poly(
            field.modulus(),
            roots@.take(nroots as int),
        ),
        forall|k: int| nroots < k < old(poly)@.len() ==> #[trigger] final(poly)@[k] == old(poly)@[k],
        final(scratch0)@.len() == old(scratch0)@.len(),
        final(scratch1)@.len() == old(scratch1)@.len(),
{
    let ghost p = field.modulus();
    let ghost before = poly@;
    let ghost (len0, len1) = (scratch0@.len(), scratch1@.len());
    scratch0[1] = 1;
    scratch0[0] = roots[0];
    proof {
        lemma_first_root(p, roots@.take(1));
        assert(scratch0@.take(2) =~= seq![roots@[0], 1u8]);
    }
    let mut i: usize = 1;
    while i < nroots
        invariant
            field.wf(),
            p == field.modulus(),
            is_primitive(p),
            1 <= i <= nroots <= roots@.len(),
            nroots < scratch0@.len(),
            nroots < scratch1@.len(),
            scratch0@.len() == len0,
            scratch1@.len() == len1,
            i % 2 == 1 ==> scratch0@.take(i + 1) == roots_poly(p, roots@.take(i as int)),
            i % 2 == 0 ==> scratch1@.take(i + 1) == roots_poly(p, roots@.take(i as int)),
        decreases nroots - i,
    {
        proof {
            let longer = roots@.take(i + 1);
            assert(longer.drop_last() =~= roots@.take(i as int));
            assert(longer.last() == roots@[i as int]);
        }
        if i % 2 == 1 {
            multiply_by_root(field, roots[i], scratch0, i, scratch1);
        } else {
            multiply_by_root(field, roots[i], scratch1, i, scratch0);
        }
        i = i + 1;
    }
    let mut k: usize = 0;
    while k <= nroots
        invariant
            k <= nroots + 1,
            nroots < poly@.len(),
            nroots < scratch0@.len(),
            nroots < scratch1@.len(),
            poly@.len() == before.len(),
            forall|t: int|
                0 <= t < k ==> #[trigger] poly@[t] == (if nroots % 2 == 1 {
                    scratch0@[t]
                } else {
                    scratch1@[t]
                }),
            forall|t: int| k <= t < poly@.len() ==> #[trigger] poly@[t] == before[t],
        decreases nroots + 1 - k,
    {
        if nroots % 2 == 1 {
            poly[k] = scratch0[k];
        } else {
            poly[k] = scratch1[k];
        }
        k = k + 1;
    }
    proof {
        if nroots % 2 == 1 {
            assert(poly@.take(nroots + 1) =~= scratch0@.take(nroots + 1));
        } else {
            assert(poly@.take(nroots + 1) =~= scratch1@.take(nroots + 1));
        }
    }
}

proof fn lemma_first_root(p: u16, roots: Seq<u8>)
    requires
        is_primitive(p),
        roots.len() == 1,
    ensures
        roots_poly(p, roots) == seq![roots[0], 1u8],
{
    let l = seq![roots[0], 1u8];
    let r = seq![1u8];
    assert(roots.drop_last() =~= Seq::<u8>::empty());
    assert(roots_poly(p, Seq::<u8>::empty()) == r);
    let c = poly_mul(p, l, r);
    assert forall|k: int| 0 <= k < 2 implies #[trigger] c[k] == l[k] by {
        let f = conv_terms(p, l, r, k);
        assert forall|i: int| 0 <= i < k + 1 && i != k implies #[trigger] f(i) == 0 by {
            lemma_mul_zero_one(p, coef(l, i));
        }
        lemma_sum_single((k + 1) as nat, k, f);
        lemma_mul_zero_one(p, l[k]);
    }
    assert(c =~= l);
}

/// The `i`th root of the generator: alpha^(gap * (first + i)).
pub open spec fn generator_root(p: u16, first: nat, gap: nat, i: int) -> u8 {
    alpha_pow(p, ((gap * (i + first)) % 255) as nat)
}

/// The roots of the generator of a code with `n` parity symbols.
pub open spec fn generator_roots(p: u16, first: nat, gap: nat, n: nat) -> Seq<u8> {
    Seq::new(n, |i: int| generator_root(p, first, gap, i))
}

/// Fills `roots` with the generator's roots and `generator` with the product of
/// their linear factors, `nroots + 1` coefficients.
pub fn reed_solomon_build_generator(
    field: &Field,
    nroots: usize,
    first_consecutive_root: FieldElement,
    root_gap: usize,
    generator: &mut [FieldElement],
    roots: &mut [FieldElement],
)
    requires
        field.wf(),
        is_primitive(field.modulus()),
        1 <= nroots <= old(roots)@.len(),
        nroots < old(generator)@.len(),
        nroots + first_consecutive_root <= usize::MAX,
        root_gap * (nroots + first_consecutive_root) <= usize::MAX,
    ensures
        final(roots)@.len() == old(roots)@.len(),
        final(generator)@.len() == old(generator)@.len(),
        final(roots)@.take(nroots as int) == generator_roots(
            field.modulus(),
            first_consecutive_root as nat,
            root_gap as nat,
            nroots as nat,
        ),
        final(generator)@.take(nroots + 1) == roots_poly(
            field.modulus(),
            final(roots)@.take(nroots as int),
        ),
        forall|k: int|
            nroots < k < old(generator)@.len() ==> #[trigger] final(generator)@[k]
                == old(generator)@[k],
        forall|k: int|
            nroots <= k < old(roots)@.len() ==> #[trigger] final(roots)@[k] == old(roots)@[k],
{
    let ghost p = field.modulus();
    let ghost before = roots@;
    let ghost len = generator.len();
    let mut i: usize = 0;
    while i < nroots
        invariant
            field.wf(),
            p == field.modulus(),
            i <= nroots <= roots@.len(),
            roots@.len() == before.len(),
            nroots + first_consecutive_root <= usize::MAX,
            root_gap * (nroots + first_consecutive_root) <= usize::MAX,
            forall|k: int|
                0 <= k < i ==> #[trigger] roots@[k] == generator_root(
                    p,
                    first_consecutive_root as nat,
                    root_gap as nat,
                    k,
                ),
            forall|k: int| i <= k < roots@.len() ==> #[trigger] roots@[k] == before[k],
        decreases nroots - i,
    {
        assert(root_gap * (i + first_consecutive_root) <= root_gap * (nroots
            + first_consecutive_root)) by (nonlinear_arith)
            requires
                i <= nroots,
        ;
        let at: usize = root_gap * (i + first_consecutive_root as usize);
        roots[i] = field.exp[at % 255];
        i = i + 1;
    }
    let mut scratch0: Vec<FieldElement> = vec![0u8; nroots + 1];
    let mut scratch1: Vec<FieldElement> = vec![0u8; nroots + 1];
    polynomial_init_from_roots(field, nroots, roots, generator, &mut scratch0, &mut scratch1);
    assert(roots@.take(nroots as int) =~= generator_roots(
        p,
        first_consecutive_root as nat,
        root_gap as nat,
        nroots as nat,
    ));
}

} // verus!
