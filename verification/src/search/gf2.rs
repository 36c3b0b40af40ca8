//! Polynomials over the field of two elements, as numbers: bit `i` is the
//! coefficient of the `i`th power.

use crate::convolutional::trellis::nat_bit;
use vstd::arithmetic::power2::{lemma2_to64, lemma_pow2_adds, lemma_pow2_pos, lemma_pow2_strictly_increases, lemma_pow2_unfold, pow2};
use vstd::prelude::*;

verus! {

/// The sum of two polynomials: exclusive-or.
pub open spec fn poly_add(a: nat, b: nat) -> nat
    decreases a,
{
    if a == 0 {
        b
    } else if b == 0 {
        a
    } else {
        (a + b) % 2 + 2 * poly_add(a / 2, b / 2)
    }
}

/// The product of two polynomials: shift and add without carries.
pub open spec fn poly_mul(u: nat, g: nat) -> nat
    decreases u,
{
    if u == 0 {
        0
    } else {
        poly_add(
            if u % 2 == 1 {
                g
            } else {
                0
            },
            2 * poly_mul(u / 2, g),
        )
    }
}

/// `d` times something is `a`.
pub open spec fn divides(d: nat, a: nat) -> bool {
    exists|q: nat| #[trigger] poly_mul(q, d) == a
}

/// `g` is the greatest common divisor of `a` and `b`.
pub open spec fn is_gcd(g: nat, a: nat, b: nat) -> bool {
    &&& divides(g, a)
    &&& divides(g, b)
    &&& forall|d: nat| #[trigger] divides(d, a) && divides(d, b) ==> divides(d, g)
}

/// Nothing but 1 divides all the polynomials.
pub open spec fn coprime(polys: Seq<u16>) -> bool {
    forall|d: nat| #[trigger] divides_all(d, polys) ==> d == 1
}

pub open spec fn divides_all(d: nat, polys: Seq<u16>) -> bool {
    forall|i: int| 0 <= i < polys.len() ==> divides(d, #[trigger] polys[i] as nat)
}

/// Numbers with the same bits are equal.
pub proof fn lemma_same_bits(a: nat, b: nat)
    requires
        forall|j: nat| #[trigger] nat_bit(a, j) == nat_bit(b, j),
    ensures
        a == b,
    decreases a + b,
{
    assert(nat_bit(a, 0) == nat_bit(b, 0));
    if a + b > 0 {
        assert forall|j: nat| #[trigger] nat_bit(a / 2, j) == nat_bit(b / 2, j) by {
            assert(nat_bit(a, j + 1) == nat_bit(b, j + 1));
        }
        lemma_same_bits(a / 2, b / 2);
    }
}

pub proof fn lemma_zero_bits(j: nat)
    ensures
        !nat_bit(0, j),
    decreases j,
{
    if j > 0 {
        lemma_zero_bits((j - 1) as nat);
    }
}

pub proof fn lemma_double_bits(a: nat, j: nat)
    ensures
        nat_bit(2 * a, j) == (j > 0 && nat_bit(a, (j - 1) as nat)),
{
    if j > 0 {
        assert((2 * a) / 2 == a);
    }
}

/// A sum has a bit set where its terms differ.
pub proof fn lemma_add_bits(a: nat, b: nat, j: nat)
    ensures
        nat_bit(poly_add(a, b), j) == (nat_bit(a, j) != nat_bit(b, j)),
    decreases a,
{
    lemma_zero_bits(j);
    if a != 0 && b != 0 {
        let s = poly_add(a, b);
        assert(s / 2 == poly_add(a / 2, b / 2));
        assert(s % 2 == (a + b) % 2);
        if j > 0 {
            lemma_add_bits(a / 2, b / 2, (j - 1) as nat);
        }
    }
}

/// Halves of a sum.
pub proof fn lemma_add_halves(a: nat, b: nat)
    ensures
        poly_add(a, b) / 2 == poly_add(a / 2, b / 2),
        poly_add(a, b) % 2 == (a + b) % 2,
        poly_add(a, 0) == a,
        poly_add(0, b) == b,
{
}

pub proof fn lemma_add_commutes(a: nat, b: nat)
    ensures
        poly_add(a, b) == poly_add(b, a),
{
    assert forall|j: nat| #[trigger] nat_bit(poly_add(a, b), j) == nat_bit(poly_add(b, a), j) by {
        lemma_add_bits(a, b, j);
        lemma_add_bits(b, a, j);
    }
    lemma_same_bits(poly_add(a, b), poly_add(b, a));
}

pub proof fn lemma_add_associates(a: nat, b: nat, c: nat)
    ensures
        poly_add(poly_add(a, b), c) == poly_add(a, poly_add(b, c)),
{
    let (x, y) = (poly_add(poly_add(a, b), c), poly_add(a, poly_add(b, c)));
    assert forall|j: nat| #[trigger] nat_bit(x, j) == nat_bit(y, j) by {
        lemma_add_bits(a, b, j);
        lemma_add_bits(b, c, j);
        lemma_add_bits(poly_add(a, b), c, j);
        lemma_add_bits(a, poly_add(b, c), j);
    }
    lemma_same_bits(x, y);
}

pub proof fn lemma_add_self(a: nat)
    ensures
        poly_add(a, a) == 0,
{
    assert forall|j: nat| #[trigger] nat_bit(poly_add(a, a), j) == nat_bit(0, j) by {
        lemma_add_bits(a, a, j);
        lemma_zero_bits(j);
    }
    lemma_same_bits(poly_add(a, a), 0);
}

/// Sums regroup.
pub proof fn lemma_add_swap(a: nat, b: nat, c: nat, d: nat)
    ensures
        poly_add(poly_add(a, b), poly_add(c, d)) == poly_add(poly_add(a, c), poly_add(b, d)),
{
    let (x, y) = (
        poly_add(poly_add(a, b), poly_add(c, d)),
        poly_add(poly_add(a, c), poly_add(b, d)),
    );
    assert forall|j: nat| #[trigger] nat_bit(x, j) == nat_bit(y, j) by {
        lemma_add_bits(a, b, j);
        lemma_add_bits(c, d, j);
        lemma_add_bits(a, c, j);
        lemma_add_bits(b, d, j);
        lemma_add_bits(poly_add(a, b), poly_add(c, d), j);
        lemma_add_bits(poly_add(a, c), poly_add(b, d), j);
    }
    lemma_same_bits(x, y);
}

pub proof fn lemma_double_add(a: nat, b: nat)
    ensures
        poly_add(2 * a, 2 * b) == 2 * poly_add(a, b),
{
    lemma_add_halves(2 * a, 2 * b);
}

/// Below a power of two, sums stay below it.
pub proof fn lemma_add_bound(a: nat, b: nat, n: nat)
    requires
        a < pow2(n),
        b < pow2(n),
    ensures
        poly_add(a, b) < pow2(n),
    decreases n,
{
    lemma_add_halves(a, b);
    if n == 0 {
        lemma2_to64();
        assert(a == 0 && b == 0);
    } else {
        lemma_pow2_unfold(n);
        lemma_add_bound(a / 2, b / 2, (n - 1) as nat);
    }
}

/// A sum's top bit: kept where just one term has it, cancelled where both do.
pub proof fn lemma_add_top(a: nat, b: nat, n: nat)
    requires
        pow2(n) <= a < pow2(n + 1),
        b < pow2(n + 1),
    ensures
        b < pow2(n) ==> pow2(n) <= poly_add(a, b) < pow2(n + 1),
        b >= pow2(n) ==> poly_add(a, b) < pow2(n),
    decreases n,
{
    lemma2_to64();
    lemma_add_halves(a, b);
    lemma_pow2_unfold(n + 1);
    if n == 0 {
        assert(a == 1 && (b == 0 || b == 1));
        assert(poly_add(0, 0) == 0);
    } else {
        lemma_pow2_unfold(n);
        lemma_add_top(a / 2, b / 2, (n - 1) as nat);
    }
}

/// Multiplying distributes over a sum on the left.
pub proof fn lemma_mul_add_left(u: nat, v: nat, g: nat)
    ensures
        poly_mul(poly_add(u, v), g) == poly_add(poly_mul(u, g), poly_mul(v, g)),
    decreases u + v,
{
    lemma_add_halves(u, v);
    if u == 0 || v == 0 {
        lemma_add_halves(poly_mul(u, g), poly_mul(v, g));
    } else {
        let (p, q) = (u / 2, v / 2);
        lemma_mul_add_left(p, q, g);
        let (a, b) = (
            if u % 2 == 1 {
                g
            } else {
                0
            },
            if v % 2 == 1 {
                g
            } else {
                0
            },
        );
        let (c, d) = (poly_mul(p, g), poly_mul(q, g));
        lemma_add_swap(a, 2 * c, b, 2 * d);
        lemma_double_add(c, d);
        lemma_add_self(g);
        lemma_add_halves(g, 0);
        let s = poly_add(u, v);
        assert(poly_add(a, b) == if s % 2 == 1 {
            g
        } else {
            0
        });
        if s == 0 {
            assert(poly_add(p, q) == 0);
        }
        assert(poly_mul(s, g) == poly_add(poly_add(a, b), 2 * poly_mul(s / 2, g)));
    }
}

pub proof fn lemma_mul_zero(u: nat)
    ensures
        poly_mul(u, 0) == 0,
        poly_mul(0, u) == 0,
    decreases u,
{
    if u > 0 {
        lemma_mul_zero(u / 2);
        lemma_add_halves(0, 0);
    }
}

pub proof fn lemma_mul_one(g: nat)
    ensures
        poly_mul(1, g) == g,
{
    assert(poly_mul(0, g) == 0);
    lemma_add_halves(g, 0);
}

pub proof fn lemma_mul_double(u: nat, g: nat)
    ensures
        poly_mul(2 * u, g) == 2 * poly_mul(u, g),
{
    if u > 0 {
        assert((2 * u) / 2 == u);
        lemma_add_halves(0, 2 * poly_mul(u, g));
    }
}

/// Multiplying by a power of two on the left shifts.
pub proof fn lemma_mul_shift(u: nat, g: nat, k: nat)
    ensures
        poly_mul(u * pow2(k), g) == poly_mul(u, g) * pow2(k),
    decreases k,
{
    if k == 0 {
        lemma2_to64();
        assert(u * 1 == u);
        assert(poly_mul(u, g) * 1 == poly_mul(u, g));
    } else {
        let m = (k - 1) as nat;
        lemma_mul_shift(u, g, m);
        lemma_pow2_unfold(k);
        let (p, q) = (u * pow2(m), poly_mul(u, g) * pow2(m));
        assert(u * pow2(k) == 2 * p) by (nonlinear_arith)
            requires
                p == u * pow2(m),
                pow2(k) == 2 * pow2(m),
        ;
        let x = poly_mul(u, g);
        assert(x * pow2(k) == 2 * q) by (nonlinear_arith)
            requires
                q == x * pow2(m),
                pow2(k) == 2 * pow2(m),
        ;
        lemma_mul_double(p, g);
    }
}

pub proof fn lemma_mul_associates(q: nat, r: nat, d: nat)
    ensures
        poly_mul(q, poly_mul(r, d)) == poly_mul(poly_mul(q, r), d),
    decreases q,
{
    if q == 0 {
        assert(poly_mul(0, d) == 0);
    } else {
        lemma_mul_associates(q / 2, r, d);
        let x = if q % 2 == 1 {
            r
        } else {
            0
        };
        let y = poly_mul(q / 2, r);
        lemma_mul_add_left(x, 2 * y, d);
        lemma_mul_double(y, d);
        assert(poly_mul(0, d) == 0);
    }
}

/// The degree of a product is the sum of the degrees.
pub proof fn lemma_mul_degree(q: nat, d: nat, a: nat, b: nat)
    requires
        pow2(a) <= q < pow2(a + 1),
        pow2(b) <= d < pow2(b + 1),
    ensures
        pow2(a + b) <= poly_mul(q, d) < pow2(a + b + 1),
    decreases a,
{
    lemma2_to64();
    if a == 0 {
        assert(q == 1);
        lemma_mul_one(d);
    } else {
        lemma_pow2_unfold(a);
        lemma_pow2_unfold(a + 1);
        let m = (a - 1) as nat;
        lemma_mul_degree(q / 2, d, m, b);
        let y = 2 * poly_mul(q / 2, d);
        lemma_pow2_unfold(a + b);
        lemma_pow2_unfold(a + b + 1);
        let x = if q % 2 == 1 {
            d
        } else {
            0
        };
        if b + 1 < a + b {
            lemma_pow2_strictly_increases(b + 1, a + b);
        }
        lemma_add_commutes(x, y);
        lemma_add_top(y, x, a + b);
    }
}

/// Every number has a degree.
pub proof fn lemma_degree_exists(x: nat) -> (n: nat)
    requires
        x > 0,
    ensures
        pow2(n) <= x < pow2(n + 1),
    decreases x,
{
    lemma2_to64();
    if x == 1 {
        0
    } else {
        let m = lemma_degree_exists(x / 2);
        lemma_pow2_unfold(m + 1);
        lemma_pow2_unfold(m + 2);
        m + 1
    }
}

/// Only 1 divides 1.
pub proof fn lemma_unit(d: nat)
    requires
        divides(d, 1),
    ensures
        d == 1,
{
    let q = choose|q: nat| #[trigger] poly_mul(q, d) == 1;
    lemma_mul_zero(q);
    lemma_mul_zero(d);
    assert(q > 0 && d > 0);
    let (a, b) = (lemma_degree_exists(q), lemma_degree_exists(d));
    lemma_mul_degree(q, d, a, b);
    lemma2_to64();
    if a + b > 0 {
        lemma_pow2_strictly_increases(0, a + b);
    }
    assert(b == 0);
}

pub proof fn lemma_divides_self(d: nat)
    ensures
        divides(d, d),
        divides(d, 0),
{
    lemma_mul_one(d);
    assert(poly_mul(1, d) == d);
    assert(poly_mul(0, d) == 0);
}

pub proof fn lemma_divides_transitive(d: nat, g: nat, a: nat)
    requires
        divides(d, g),
        divides(g, a),
    ensures
        divides(d, a),
{
    let r = choose|r: nat| #[trigger] poly_mul(r, d) == g;
    let q = choose|q: nat| #[trigger] poly_mul(q, g) == a;
    lemma_mul_associates(q, r, d);
    assert(poly_mul(poly_mul(q, r), d) == a);
}

/// Adding a multiple of `b` to `a` changes no common divisor.
pub proof fn lemma_divides_sum(d: nat, a: nat, b: nat, k: nat)
    requires
        divides(d, b),
    ensures
        divides(d, poly_add(a, b * pow2(k))) == divides(d, a),
{
    let r = choose|r: nat| #[trigger] poly_mul(r, d) == b;
    lemma_mul_shift(r, d, k);
    let (s, c) = (r * pow2(k), b * pow2(k));
    assert(poly_mul(s, d) == c);
    if divides(d, a) {
        let q = choose|q: nat| #[trigger] poly_mul(q, d) == a;
        lemma_mul_add_left(q, s, d);
        assert(poly_mul(poly_add(q, s), d) == poly_add(a, c));
    }
    if divides(d, poly_add(a, c)) {
        let q = choose|q: nat| #[trigger] poly_mul(q, d) == poly_add(a, c);
        lemma_mul_add_left(q, s, d);
        lemma_add_associates(a, c, c);
        lemma_add_self(c);
        lemma_add_halves(a, 0);
        assert(poly_mul(poly_add(q, s), d) == a);
    }
}

/// A sum of multiples of `a` and `b`.
pub open spec fn spans(x: nat, a: nat, b: nat) -> bool {
    exists|s: nat, t: nat| x == #[trigger] poly_add(poly_mul(s, a), poly_mul(t, b))
}

proof fn lemma_spans_ends(a: nat, b: nat)
    ensures
        spans(a, a, b),
        spans(b, a, b),
{
    lemma_mul_one(a);
    lemma_mul_one(b);
    lemma_add_halves(a, 0);
    lemma_add_halves(0, b);
    assert(a == poly_add(poly_mul(1, a), poly_mul(0, b)));
    assert(b == poly_add(poly_mul(0, a), poly_mul(1, b)));
}

proof fn lemma_spans_sum(x: nat, y: nat, k: nat, a: nat, b: nat)
    requires
        spans(x, a, b),
        spans(y, a, b),
    ensures
        spans(poly_add(x, y * pow2(k)), a, b),
{
    let (s, t) = choose|s: nat, t: nat|
        x == #[trigger] poly_add(poly_mul(s, a), poly_mul(t, b));
    let (u, v) = choose|u: nat, v: nat|
        y == #[trigger] poly_add(poly_mul(u, a), poly_mul(v, b));
    lemma_shift_add(poly_mul(u, a), poly_mul(v, b), k);
    lemma_mul_shift(u, a, k);
    lemma_mul_shift(v, b, k);
    let (u2, v2) = (u * pow2(k), v * pow2(k));
    lemma_add_swap(poly_mul(s, a), poly_mul(t, b), poly_mul(u2, a), poly_mul(v2, b));
    lemma_mul_add_left(s, u2, a);
    lemma_mul_add_left(t, v2, b);
    assert(poly_add(x, y * pow2(k)) == poly_add(
        poly_mul(poly_add(s, u2), a),
        poly_mul(poly_add(t, v2), b),
    ));
}

/// Shifting a sum shifts its terms.
pub proof fn lemma_shift_add(a: nat, b: nat, k: nat)
    ensures
        poly_add(a, b) * pow2(k) == poly_add(a * pow2(k), b * pow2(k)),
    decreases k,
{
    if k == 0 {
        lemma2_to64();
        assert(a * 1 == a && b * 1 == b);
        assert(poly_add(a, b) * 1 == poly_add(a, b));
    } else {
        let m = (k - 1) as nat;
        lemma_shift_add(a, b, m);
        lemma_pow2_unfold(k);
        let (p, q, s) = (a * pow2(m), b * pow2(m), poly_add(a, b));
        assert(a * pow2(k) == 2 * p && b * pow2(k) == 2 * q && s * pow2(k) == 2 * (s * pow2(m)))
            by (nonlinear_arith)
            requires
                p == a * pow2(m),
                q == b * pow2(m),
                pow2(k) == 2 * pow2(m),
        ;
        lemma_double_add(p, q);
    }
}

/// Machine words add like polynomials.
pub proof fn lemma_word_add(x: u64, y: u64)
    ensures
        (x ^ y) as nat == poly_add(x as nat, y as nat),
    decreases x,
{
    assert((x ^ y) / 2 == (x / 2) ^ (y / 2) && (x ^ y) % 2 == (if x % 2 != y % 2 {
        1u64
    } else {
        0u64
    }) && x ^ 0u64 == x && 0u64 ^ y == y) by (bit_vector);
    lemma_add_halves(x as nat, y as nat);
    if x != 0 && y != 0 {
        lemma_word_add(x / 2, y / 2);
    }
}

/// The degree of a polynomial.
pub fn degree(p: u32) -> (n: u32)
    requires
        p > 0,
    ensures
        n < 32,
        pow2(n as nat) <= p < pow2((n + 1) as nat),
{
    proof {
        lemma2_to64();
    }
    let mut rest: u32 = p;
    let mut n: u32 = 0;
    while rest > 1
        invariant
            rest >= 1,
            rest * pow2(n as nat) <= p < (rest + 1) * pow2(n as nat),
            n <= 31,
            pow2(31) == 0x8000_0000,
        decreases rest,
    {
        proof {
            let h = pow2(n as nat) as int;
            let (r, q) = (rest as int, rest as int / 2);
            lemma_pow2_unfold((n + 1) as nat);
            lemma_pow2_pos(n as nat);
            assert(q * (2 * h) <= p < (q + 1) * (2 * h)) by (nonlinear_arith)
                requires
                    r * h <= p < (r + 1) * h,
                    2 * q <= r < 2 * q + 2,
                    h >= 1,
            ;
            assert(2 * h <= p) by (nonlinear_arith)
                requires
                    r * h <= p,
                    r >= 2,
                    h >= 1,
            ;
            if n == 31 {
                assert(false);
            }
        }
        rest = rest / 2;
        n = n + 1;
    }
    proof {
        let h = pow2(n as nat) as int;
        assert(1 * h == h && 2 * h == h + h);
        lemma_pow2_unfold((n + 1) as nat);
    }
    n
}

/// The greatest common divisor of two polynomials.
pub fn gf2_gcd(a: u32, b: u32) -> (g: u32)
    ensures
        is_gcd(g as nat, a as nat, b as nat),
        spans(g as nat, a as nat, b as nat),
{
    let ghost (a0, b0) = (a as nat, b as nat);
    let mut a: u32 = a;
    let mut b: u32 = b;
    proof {
        lemma_spans_ends(a0, b0);
    }
    while b != 0
        invariant
            forall|d: nat|
                (#[trigger] divides(d, a0) && divides(d, b0)) == (divides(d, a as nat) && divides(
                    d,
                    b as nat,
                )),
            spans(a as nat, a0, b0),
            spans(b as nat, a0, b0),
        decreases b,
    {
        let deg: u32 = degree(b);
        let mut top: u32 = if a == 0 {
            0
        } else {
            degree(a)
        };
        while a != 0 && top >= deg
            invariant
                b != 0,
                pow2(deg as nat) <= b < pow2((deg + 1) as nat),
                deg < 32,
                a != 0 ==> top < 32 && pow2(top as nat) <= a < pow2((top + 1) as nat),
                forall|d: nat|
                    (#[trigger] divides(d, a0) && divides(d, b0)) == (divides(d, a as nat)
                        && divides(d, b as nat)),
                spans(a as nat, a0, b0),
                spans(b as nat, a0, b0),
            decreases a,
        {
            let shift: u32 = top - deg;
            let ghost (x, y, k) = (a as nat, b as nat, shift as nat);
            proof {
                lemma_pow2_adds(deg as nat, k);
                lemma_pow2_adds((deg + 1) as nat, k);
                let (p, q, h) = (pow2(deg as nat), pow2((deg + 1) as nat), pow2(k));
                lemma_pow2_pos(k);
                assert(p * h <= y * h < q * h) by (nonlinear_arith)
                    requires
                        p <= y < q,
                        h >= 1,
                ;
                lemma2_to64();
                if top + 1 < 32 {
                    lemma_pow2_strictly_increases((top + 1) as nat, 32);
                }
                vstd::bits::lemma_u32_shl_is_mul(b, shift);
                let c = b << shift;
                lemma_word_add(a as u64, c as u64);
                lemma_add_top(x, y * h, top as nat);
                assert forall|d: nat|
                    (#[trigger] divides(d, a0) && divides(d, b0)) == (divides(
                        d,
                        poly_add(x, y * h),
                    ) && divides(d, y)) by {
                    if divides(d, y) {
                        lemma_divides_sum(d, x, y, k);
                    }
                }
                lemma_spans_sum(x, y, k, a0, b0);
            }
            a = a ^ (b << shift);
            top = if a == 0 {
                0
            } else {
                degree(a)
            };
        }
        proof {
            if a != 0 {
                if top + 1 < deg {
                    lemma_pow2_strictly_increases((top + 1) as nat, deg as nat);
                }
            }
            assert(a < b);
        }
        let rest: u32 = a;
        a = b;
        b = rest;
    }
    proof {
        lemma_divides_self(a as nat);
        assert(divides(a as nat, a0) && divides(a as nat, b0));
        assert forall|d: nat| #[trigger] divides(d, a0) && divides(d, b0) implies divides(
            d,
            a as nat,
        ) by {}
    }
    a
}

} // verus!
