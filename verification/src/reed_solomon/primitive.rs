//! The primitive polynomials of degree eight.

use super::galois::{alpha_pow, is_primitive, mul_x};
use vstd::prelude::*;

verus! {

/// The sixteen primitive polynomials of degree eight over GF(2).
pub open spec fn is_primitive_polynomial(p: u16) -> bool {
    ||| p == 0x11d
    ||| p == 0x12b
    ||| p == 0x12d
    ||| p == 0x14d
    ||| p == 0x15f
    ||| p == 0x163
    ||| p == 0x165
    ||| p == 0x169
    ||| p == 0x171
    ||| p == 0x187
    ||| p == 0x18d
    ||| p == 0x1a9
    ||| p == 0x1c3
    ||| p == 0x1cf
    ||| p == 0x1e7
    ||| p == 0x1f5
}

/// Walks up the powers of alpha from `a`, taken to be alpha^(255 - left), and
/// says whether the walk meets 1 at alpha^255 and not before.
spec fn returns_late(p: u16, a: u8, left: u32) -> bool
    decreases left,
{
    if left == 0 {
        a == 1u8
    } else {
        a != 1u8 && returns_late(p, mul_x(p, a), (left - 1) as u32)
    }
}

proof fn lemma_returns_late(p: u16, k: nat, left: u32)
    requires
        k + left == 255,
        returns_late(p, alpha_pow(p, k), left),
    ensures
        alpha_pow(p, 255) == 1,
        forall|j: nat| k <= j < 255 ==> #[trigger] alpha_pow(p, j) != 1,
    decreases left,
{
    if left > 0 {
        lemma_returns_late(p, k + 1, (left - 1) as u32);
    }
}

/// Each of the sixteen is primitive: alpha generates every nonzero byte.
pub proof fn lemma_primitive_polynomials(p: u16)
    requires
        is_primitive_polynomial(p),
    ensures
        is_primitive(p),
{
    assert(returns_late(0x11d, 2, 254) && returns_late(0x12b, 2, 254) && returns_late(0x12d, 2, 254)
        && returns_late(0x14d, 2, 254) && returns_late(0x15f, 2, 254) && returns_late(
        0x163,
        2,
        254,
    ) && returns_late(0x165, 2, 254) && returns_late(0x169, 2, 254) && returns_late(0x171, 2, 254)
        && returns_late(0x187, 2, 254) && returns_late(0x18d, 2, 254) && returns_late(
        0x1a9,
        2,
        254,
    ) && returns_late(0x1c3, 2, 254) && returns_late(0x1cf, 2, 254) && returns_late(0x1e7, 2, 254)
        && returns_late(0x1f5, 2, 254)) by (bit_vector);
    assert(mul_x(p, 1) == 2) by (bit_vector);
    assert(alpha_pow(p, 0) == 1);
    assert(alpha_pow(p, 1) == mul_x(p, alpha_pow(p, 0)));
    lemma_returns_late(p, 1, 254);
    assert(p == 0x11d || p == 0x12b || p == 0x12d || p == 0x14d || p == 0x15f || p == 0x163 || p
        == 0x165 || p == 0x169 || p == 0x171 || p == 0x187 || p == 0x18d || p == 0x1a9 || p == 0x1c3
        || p == 0x1cf || p == 0x1e7 || p == 0x1f5 ==> p & 1 == 1) by (bit_vector);
}

} // verus!
