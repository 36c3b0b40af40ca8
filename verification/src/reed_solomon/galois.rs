//! The mathematical model of GF(2^8).
//!
//! A byte stands for a polynomial over GF(2) of degree below eight. The field
//! is the set of those polynomials modulo a degree-eight polynomial `p`, whose
//! coefficients are the low nine bits of a `u16`. The element `x` is written
//! alpha. When `p` is primitive, the powers of alpha run through every nonzero
//! byte, so multiplication can be done by adding logarithms.

use vstd::prelude::*;

verus! {

/// The product of `a` and alpha: shift up by one and, where the shift carries
/// out of eight bits, subtract (exclusive-or) the modulus.
pub open spec fn mul_x(p: u16, a: u8) -> u8 {
    (((a as u16) << 1u16) ^ (if a >= 128u8 { p } else { 0u16 })) as u8
}

/// The product of `a` and alpha^k.
pub open spec fn shift_pow(p: u16, a: u8, k: nat) -> u8
    decreases k,
{
    if k == 0 {
        a
    } else {
        mul_x(p, shift_pow(p, a, (k - 1) as nat))
    }
}

/// alpha^k.
pub open spec fn alpha_pow(p: u16, k: nat) -> u8 {
    shift_pow(p, 1, k)
}

/// The polynomials of degree eight, the only ones a field can be built from.
pub open spec fn is_degree_eight(p: u16) -> bool {
    0x100 <= p < 0x200
}

/// The largest `k` in `1..=n` with alpha^k equal to `e`, or 0 if there is none.
pub open spec fn last_log(p: u16, e: u8, n: nat) -> nat
    decreases n,
{
    if n == 0 {
        0
    } else if alpha_pow(p, n) == e {
        n
    } else {
        last_log(p, e, (n - 1) as nat)
    }
}

/// The logarithm of `e` to base alpha, as the logarithm table holds it: in
/// `1..=255` for a nonzero element of a field, 0 for the element 0.
pub open spec fn gf_log(p: u16, e: u8) -> nat {
    last_log(p, e, 255)
}

/// Multiplication by adding logarithms.
#[verifier::opaque]
pub open spec fn gf_mul(p: u16, l: u8, r: u8) -> u8 {
    if l == 0 || r == 0 {
        0
    } else {
        alpha_pow(p, gf_log(p, l) + gf_log(p, r))
    }
}

/// Division by subtracting logarithms; a zero divisor gives 0.
#[verifier::opaque]
pub open spec fn gf_div(p: u16, l: u8, r: u8) -> u8 {
    if l == 0 || r == 0 {
        0
    } else {
        alpha_pow(p, (255 + gf_log(p, l) - gf_log(p, r)) as nat)
    }
}

/// `x` multiplied by itself `n` times.
pub open spec fn gf_pow(p: u16, x: u8, n: nat) -> u8
    decreases n,
{
    if n == 0 {
        1
    } else {
        gf_mul(p, x, gf_pow(p, x, (n - 1) as nat))
    }
}

/// Whether alpha generates the whole multiplicative group modulo `p`: alpha^255
/// is the first power to return to 1.
pub open spec fn is_primitive(p: u16) -> bool {
    &&& is_degree_eight(p)
    &&& p & 1 == 1
    &&& alpha_pow(p, 255) == 1
    &&& forall|k: nat| 0 < k < 255 ==> #[trigger] alpha_pow(p, k) != 1
}

/// Exclusive-or on bytes is an abelian group in which every element is its own
/// inverse.
pub proof fn lemma_xor(a: u8, b: u8, c: u8)
    ensures
        a ^ b == b ^ a,
        (a ^ b) ^ c == a ^ (b ^ c),
        a ^ (b ^ c) == b ^ (a ^ c),
        a ^ a == 0,
        a ^ 0 == a,
        0 ^ a == a,
        a ^ (a ^ b) == b,
        (a ^ b == 0) <==> a == b,
        a ^ b == c <==> a == b ^ c,
{
    assert(a ^ b == b ^ a && (a ^ b) ^ c == a ^ (b ^ c) && a ^ (b ^ c) == b ^ (a ^ c) && a ^ a == 0
        && a ^ 0 == a && 0 ^ a == a && a ^ (a ^ b) == b && ((a ^ b == 0) <==> a == b) && (a ^ b == c
        <==> a == b ^ c)) by (bit_vector);
}

/// Four-term rearrangement.
pub proof fn lemma_xor4(a: u8, b: u8, c: u8, d: u8)
    ensures
        (a ^ b) ^ (c ^ d) == (a ^ c) ^ (b ^ d),
{
    assert((a ^ b) ^ (c ^ d) == (a ^ c) ^ (b ^ d)) by (bit_vector);
}

/// Multiplication by alpha is linear, and loses nothing when `p` has a constant
/// term.
pub proof fn lemma_mul_x(p: u16, a: u8, b: u8)
    ensures
        mul_x(p, a ^ b) == mul_x(p, a) ^ mul_x(p, b),
        mul_x(p, 0) == 0,
        is_degree_eight(p) && p & 1 == 1 && mul_x(p, a) == mul_x(p, b) ==> a == b,
{
    assert(mul_x(p, a ^ b) == mul_x(p, a) ^ mul_x(p, b) && mul_x(p, 0) == 0 && (0x100 <= p && p
        < 0x200 && p & 1 == 1 && mul_x(p, a) == mul_x(p, b) ==> a == b)) by (bit_vector);
}

pub proof fn lemma_shift_pow_add(p: u16, a: u8, i: nat, j: nat)
    ensures
        shift_pow(p, shift_pow(p, a, j), i) == shift_pow(p, a, i + j),
    decreases i,
{
    if i > 0 {
        lemma_shift_pow_add(p, a, (i - 1) as nat, j);
    }
}

pub proof fn lemma_shift_pow_linear(p: u16, a: u8, b: u8, k: nat)
    ensures
        shift_pow(p, a ^ b, k) == shift_pow(p, a, k) ^ shift_pow(p, b, k),
        shift_pow(p, 0, k) == 0,
    decreases k,
{
    if k > 0 {
        lemma_shift_pow_linear(p, a, b, (k - 1) as nat);
        lemma_mul_x(p, shift_pow(p, a, (k - 1) as nat), shift_pow(p, b, (k - 1) as nat));
    }
}

pub proof fn lemma_shift_pow_injective(p: u16, a: u8, b: u8, k: nat)
    requires
        is_degree_eight(p),
        p & 1 == 1,
        shift_pow(p, a, k) == shift_pow(p, b, k),
    ensures
        a == b,
    decreases k,
{
    if k > 0 {
        lemma_mul_x(p, shift_pow(p, a, (k - 1) as nat), shift_pow(p, b, (k - 1) as nat));
        lemma_shift_pow_injective(p, a, b, (k - 1) as nat);
    }
}

/// Powers of alpha repeat with period 255.
pub proof fn lemma_alpha_period(p: u16, k: nat)
    requires
        is_primitive(p),
    ensures
        alpha_pow(p, k) == alpha_pow(p, k % 255),
        alpha_pow(p, k + 255) == alpha_pow(p, k),
    decreases k,
{
    lemma_shift_pow_add(p, 1, k, 255);
    if k >= 255 {
        let m = (k - 255) as nat;
        lemma_alpha_period(p, m);
        assert(k % 255 == m % 255);
    }
}

/// No power of alpha is 0, and two powers agree only where the exponents do
/// modulo 255.
pub proof fn lemma_alpha_distinct(p: u16, i: nat, j: nat)
    requires
        is_primitive(p),
        alpha_pow(p, i) == alpha_pow(p, j),
    ensures
        i % 255 == j % 255,
{
    lemma_alpha_period(p, i);
    lemma_alpha_period(p, j);
    let a = i % 255;
    let b = j % 255;
    if a < b {
        lemma_shift_pow_add(p, 1, a, (b - a) as nat);
        lemma_shift_pow_injective(p, 1, alpha_pow(p, (b - a) as nat), a);
    } else if b < a {
        lemma_shift_pow_add(p, 1, b, (a - b) as nat);
        lemma_shift_pow_injective(p, 1, alpha_pow(p, (a - b) as nat), b);
    }
}

pub proof fn lemma_alpha_nonzero(p: u16, k: nat)
    requires
        is_primitive(p),
    ensures
        alpha_pow(p, k) != 0,
{
    if alpha_pow(p, k) == 0 {
        lemma_shift_pow_linear(p, 0, 0, k);
        lemma_shift_pow_injective(p, 1, 0, k);
    }
}

/// Every nonzero byte is a power of alpha.
proof fn lemma_alpha_onto(p: u16, e: u8)
    requires
        is_primitive(p),
        e != 0,
    ensures
        exists|k: nat| 1 <= k <= 255 && #[trigger] alpha_pow(p, k) == e,
{
    let exponents: Set<int> = vstd::set_lib::set_int_range(0, 255);
    let bytes: Set<int> = vstd::set_lib::set_int_range(1, 256);
    vstd::set_lib::lemma_int_range(0, 255);
    vstd::set_lib::lemma_int_range(1, 256);
    let f = |k: int| alpha_pow(p, k as nat) as int;
    let image: Set<int> = exponents.map(f);
    assert forall|a: int, b: int|
        exponents.contains(a) && exponents.contains(b) && f(a) == f(b) implies a == b by {
        lemma_alpha_distinct(p, a as nat, b as nat);
    }
    assert(vstd::relations::injective_on(f, exponents));
    vstd::set_lib::lemma_map_size(exponents, image, f);
    assert forall|v: int| image.contains(v) implies bytes.contains(v) by {
        let k = choose|k: int| exponents.contains(k) && f(k) == v;
        lemma_alpha_nonzero(p, k as nat);
    }
    vstd::set_lib::lemma_subset_equality(image, bytes);
    assert(bytes.contains(e as int));
    let k = choose|k: int| exponents.contains(k) && f(k) == e as int;
    assert(alpha_pow(p, k as nat) == e);
    if k == 0 {
        lemma_alpha_period(p, 0);
        assert(alpha_pow(p, 255) == e);
    }
}

proof fn lemma_last_log(p: u16, e: u8, n: nat)
    ensures
        last_log(p, e, n) <= n,
        last_log(p, e, n) > 0 ==> alpha_pow(p, last_log(p, e, n)) == e,
        forall|k: nat| 1 <= k <= n && #[trigger] alpha_pow(p, k) == e ==> k <= last_log(p, e, n),
    decreases n,
{
    if n > 0 && alpha_pow(p, n) != e {
        lemma_last_log(p, e, (n - 1) as nat);
    }
}

/// The logarithm table never runs past 255.
pub proof fn lemma_log_bound(p: u16, e: u8)
    ensures
        gf_log(p, e) <= 255,
{
    lemma_last_log(p, e, 255);
}

/// In a field every nonzero element has a logarithm.
pub proof fn lemma_log(p: u16, e: u8)
    requires
        is_primitive(p),
    ensures
        e != 0 ==> 1 <= gf_log(p, e) <= 255 && alpha_pow(p, gf_log(p, e)) == e,
        e == 0 ==> gf_log(p, e) == 0,
        e == 1 ==> gf_log(p, e) == 255,
        e > 1 ==> gf_log(p, e) < 255,
{
    lemma_last_log(p, e, 255);
    if e != 0 {
        lemma_alpha_onto(p, e);
    } else if gf_log(p, e) > 0 {
        lemma_alpha_nonzero(p, gf_log(p, e));
    }
}

/// Multiplying by a nonzero `r` is shifting by its logarithm.
pub proof fn lemma_mul_shift(p: u16, l: u8, r: u8)
    requires
        is_primitive(p),
        r != 0,
    ensures
        gf_mul(p, l, r) == shift_pow(p, l, gf_log(p, r)),
{
    reveal(gf_mul);
    lemma_log(p, l);
    lemma_log(p, r);
    lemma_shift_pow_linear(p, 0, 0, gf_log(p, r));
    if l != 0 {
        lemma_shift_pow_add(p, 1, gf_log(p, r), gf_log(p, l));
        assert(gf_log(p, r) + gf_log(p, l) == gf_log(p, l) + gf_log(p, r));
    }
}

/// Powers of alpha multiply by adding exponents.
pub proof fn lemma_mul_alpha(p: u16, i: nat, j: nat)
    requires
        is_primitive(p),
    ensures
        gf_mul(p, alpha_pow(p, i), alpha_pow(p, j)) == alpha_pow(p, i + j),
{
    let a = alpha_pow(p, i);
    let b = alpha_pow(p, j);
    lemma_alpha_nonzero(p, i);
    lemma_alpha_nonzero(p, j);
    lemma_log(p, a);
    lemma_log(p, b);
    lemma_alpha_distinct(p, gf_log(p, a), i);
    lemma_alpha_distinct(p, gf_log(p, b), j);
    reveal(gf_mul);
    lemma_alpha_period(p, gf_log(p, a) + gf_log(p, b));
    lemma_alpha_period(p, i + j);
    assert((gf_log(p, a) + gf_log(p, b)) % 255 == (i + j) % 255);
}

pub proof fn lemma_mul_commutes(p: u16, a: u8, b: u8)
    ensures
        gf_mul(p, a, b) == gf_mul(p, b, a),
{
    reveal(gf_mul);
    assert(gf_log(p, a) + gf_log(p, b) == gf_log(p, b) + gf_log(p, a));
}

pub proof fn lemma_mul_zero_one(p: u16, a: u8)
    requires
        is_primitive(p),
    ensures
        gf_mul(p, a, 0) == 0,
        gf_mul(p, 0, a) == 0,
        gf_mul(p, a, 1) == a,
        gf_mul(p, 1, a) == a,
{
    lemma_mul_commutes(p, a, 1);
    reveal(gf_mul);
    if a != 0 {
        lemma_log(p, a);
        lemma_log(p, 1);
        lemma_alpha_period(p, gf_log(p, a));
    }
}

/// There are no zero divisors.
pub proof fn lemma_mul_nonzero(p: u16, a: u8, b: u8)
    requires
        is_primitive(p),
    ensures
        gf_mul(p, a, b) == 0 <==> a == 0 || b == 0,
{
    reveal(gf_mul);
    if a != 0 && b != 0 {
        lemma_alpha_nonzero(p, gf_log(p, a) + gf_log(p, b));
    }
}

pub proof fn lemma_mul_associates(p: u16, a: u8, b: u8, c: u8)
    requires
        is_primitive(p),
    ensures
        gf_mul(p, gf_mul(p, a, b), c) == gf_mul(p, a, gf_mul(p, b, c)),
{
    lemma_mul_zero_one(p, a);
    lemma_mul_zero_one(p, b);
    lemma_mul_zero_one(p, c);
    lemma_mul_zero_one(p, gf_mul(p, b, c));
    lemma_mul_zero_one(p, gf_mul(p, a, b));
    if a != 0 && b != 0 && c != 0 {
        let (i, j, k) = (gf_log(p, a), gf_log(p, b), gf_log(p, c));
        lemma_log(p, a);
        lemma_log(p, b);
        lemma_log(p, c);
        lemma_mul_alpha(p, i, j);
        lemma_mul_alpha(p, i + j, k);
        lemma_mul_alpha(p, j, k);
        lemma_mul_alpha(p, i, j + k);
    }
}

pub proof fn lemma_mul_distributes(p: u16, a: u8, b: u8, c: u8)
    requires
        is_primitive(p),
    ensures
        gf_mul(p, a ^ b, c) == gf_mul(p, a, c) ^ gf_mul(p, b, c),
        gf_mul(p, c, a ^ b) == gf_mul(p, c, a) ^ gf_mul(p, c, b),
{
    lemma_mul_commutes(p, a ^ b, c);
    lemma_mul_commutes(p, a, c);
    lemma_mul_commutes(p, b, c);
    if c == 0 {
        reveal(gf_mul);
        lemma_xor(0, 0, 0);
    } else {
        lemma_mul_shift(p, a ^ b, c);
        lemma_mul_shift(p, a, c);
        lemma_mul_shift(p, b, c);
        lemma_shift_pow_linear(p, a, b, gf_log(p, c));
    }
}

/// Division undoes multiplication.
pub proof fn lemma_div(p: u16, a: u8, b: u8)
    requires
        is_primitive(p),
        b != 0,
    ensures
        gf_mul(p, gf_div(p, a, b), b) == a,
        gf_div(p, gf_mul(p, a, b), b) == a,
        gf_div(p, a, b) == 0 <==> a == 0,
{
    reveal(gf_div);
    lemma_mul_zero_one(p, b);
    lemma_mul_zero_one(p, a);
    lemma_div_mul(p, a, b);
    let ab = gf_mul(p, a, b);
    lemma_mul_nonzero(p, a, b);
    lemma_div_mul(p, ab, b);
    lemma_mul_cancel(p, gf_div(p, ab, b), a, b);
    if a != 0 {
        lemma_log(p, a);
        lemma_log(p, b);
        lemma_alpha_nonzero(p, (255 + gf_log(p, a) - gf_log(p, b)) as nat);
    }
}

proof fn lemma_div_mul(p: u16, a: u8, b: u8)
    requires
        is_primitive(p),
        b != 0,
    ensures
        gf_mul(p, gf_div(p, a, b), b) == a,
{
    reveal(gf_div);
    lemma_mul_zero_one(p, b);
    if a != 0 {
        lemma_log(p, a);
        lemma_log(p, b);
        let d = (255 + gf_log(p, a) - gf_log(p, b)) as nat;
        lemma_mul_alpha(p, d, gf_log(p, b));
        assert(d + gf_log(p, b) == gf_log(p, a) + 255);
        lemma_alpha_period(p, gf_log(p, a));
    }
}

/// A nonzero factor cancels.
pub proof fn lemma_mul_cancel(p: u16, a: u8, b: u8, c: u8)
    requires
        is_primitive(p),
        c != 0,
        gf_mul(p, a, c) == gf_mul(p, b, c),
    ensures
        a == b,
{
    lemma_mul_distributes(p, a, b, c);
    lemma_xor(gf_mul(p, a, c), gf_mul(p, b, c), 0);
    lemma_mul_nonzero(p, a ^ b, c);
    lemma_xor(a, b, 0);
}

/// The reciprocal of a nonzero element.
pub open spec fn gf_inv(p: u16, a: u8) -> u8 {
    gf_div(p, 1, a)
}

pub proof fn lemma_inv(p: u16, a: u8)
    requires
        is_primitive(p),
        a != 0,
    ensures
        gf_mul(p, gf_inv(p, a), a) == 1,
        gf_mul(p, a, gf_inv(p, a)) == 1,
        gf_inv(p, a) != 0,
        gf_inv(p, gf_inv(p, a)) == a,
        forall|b: u8| #[trigger] gf_div(p, b, a) == gf_mul(p, b, gf_inv(p, a)),
{
    lemma_div(p, 1, a);
    lemma_mul_commutes(p, gf_inv(p, a), a);
    let i = gf_inv(p, a);
    lemma_div(p, 1, i);
    lemma_mul_cancel(p, gf_inv(p, i), a, i);
    assert forall|b: u8| #[trigger] gf_div(p, b, a) == gf_mul(p, b, i) by {
        lemma_div(p, b, a);
        lemma_mul_associates(p, b, i, a);
        lemma_mul_zero_one(p, b);
        lemma_mul_cancel(p, gf_div(p, b, a), gf_mul(p, b, i), a);
    }
}

/// Distinct elements have distinct reciprocals.
pub proof fn lemma_inv_injective(p: u16, a: u8, b: u8)
    requires
        is_primitive(p),
        a != 0,
        b != 0,
        gf_inv(p, a) == gf_inv(p, b),
    ensures
        a == b,
{
    lemma_inv(p, a);
    lemma_inv(p, b);
}

pub proof fn lemma_pow_nonzero(p: u16, x: u8, n: nat)
    requires
        is_primitive(p),
        x != 0,
    ensures
        gf_pow(p, x, n) != 0,
    decreases n,
{
    if n > 0 {
        lemma_pow_nonzero(p, x, (n - 1) as nat);
        lemma_mul_nonzero(p, x, gf_pow(p, x, (n - 1) as nat));
    }
}

pub proof fn lemma_pow_add(p: u16, x: u8, m: nat, n: nat)
    requires
        is_primitive(p),
    ensures
        gf_mul(p, gf_pow(p, x, m), gf_pow(p, x, n)) == gf_pow(p, x, m + n),
    decreases m,
{
    if m == 0 {
        lemma_mul_zero_one(p, gf_pow(p, x, n));
    } else {
        lemma_pow_add(p, x, (m - 1) as nat, n);
        lemma_mul_associates(p, x, gf_pow(p, x, (m - 1) as nat), gf_pow(p, x, n));
    }
}

pub proof fn lemma_pow_mul(p: u16, x: u8, y: u8, n: nat)
    requires
        is_primitive(p),
    ensures
        gf_pow(p, gf_mul(p, x, y), n) == gf_mul(p, gf_pow(p, x, n), gf_pow(p, y, n)),
    decreases n,
{
    if n == 0 {
        lemma_mul_zero_one(p, 1);
    } else {
        let m = (n - 1) as nat;
        lemma_pow_mul(p, x, y, m);
        let (a, b) = (gf_pow(p, x, m), gf_pow(p, y, m));
        lemma_mul_associates(p, x, y, gf_mul(p, a, b));
        lemma_mul_associates(p, y, a, b);
        lemma_mul_commutes(p, y, a);
        lemma_mul_associates(p, a, y, b);
        lemma_mul_associates(p, x, a, gf_mul(p, y, b));
    }
}

pub proof fn lemma_pow_one(p: u16, n: nat)
    requires
        is_primitive(p),
    ensures
        gf_pow(p, 1, n) == 1,
    decreases n,
{
    lemma_mul_zero_one(p, 1);
    if n > 0 {
        lemma_pow_one(p, (n - 1) as nat);
    }
}

/// `x^m * (1/x)^n` is `x^(m-n)`.
pub proof fn lemma_pow_inv(p: u16, x: u8, m: nat, n: nat)
    requires
        is_primitive(p),
        x != 0,
        n <= m,
    ensures
        gf_mul(p, gf_pow(p, x, m), gf_pow(p, gf_inv(p, x), n)) == gf_pow(p, x, (m - n) as nat),
{
    let i = gf_inv(p, x);
    lemma_inv(p, x);
    lemma_pow_add(p, x, (m - n) as nat, n);
    lemma_mul_associates(p, gf_pow(p, x, (m - n) as nat), gf_pow(p, x, n), gf_pow(p, i, n));
    lemma_pow_mul(p, x, i, n);
    lemma_pow_one(p, n);
    lemma_mul_zero_one(p, gf_pow(p, x, (m - n) as nat));
}

/// A power of a power of alpha.
pub proof fn lemma_pow_alpha(p: u16, k: nat, n: nat)
    requires
        is_primitive(p),
    ensures
        gf_pow(p, alpha_pow(p, k), n) == alpha_pow(p, k * n),
    decreases n,
{
    if n == 0 {
        assert(k * 0 == 0);
    } else {
        lemma_pow_alpha(p, k, (n - 1) as nat);
        lemma_mul_alpha(p, k, k * (n - 1) as nat);
        assert(k + k * (n - 1) == k * n) by (nonlinear_arith)
            requires
                n > 0,
        ;
    }
}

} // verus!
