//! Output weights, and the test for catastrophic codes.

use super::gf2::{
    coprime, divides, divides_all, gf2_gcd, lemma_add_associates, lemma_add_halves,
    lemma_degree_exists, lemma_divides_self, lemma_divides_transitive, lemma_double_add,
    lemma_mul_associates, lemma_mul_degree, lemma_mul_one, lemma_mul_zero, lemma_unit,
    lemma_word_add, poly_add, poly_mul,
};
use crate::convolutional::trellis::dot;
use crate::convolutional::util::{count_ones, lemma_dot, ones};
use vstd::arithmetic::power2::{lemma2_to64, lemma_pow2_strictly_increases, lemma_pow2_unfold, pow2};
use vstd::prelude::*;

verus! {

/// The sum of the first `n` polynomials, each times its coefficient.
pub open spec fn combination(c: Seq<nat>, polys: Seq<u16>, n: nat) -> nat
    decreases n,
{
    if n == 0 {
        0
    } else {
        poly_add(
            combination(c, polys, (n - 1) as nat),
            poly_mul(c[n - 1], polys[n - 1] as nat),
        )
    }
}

/// `x` is a combination of the first `n` polynomials.
pub open spec fn combines(x: nat, polys: Seq<u16>, n: nat) -> bool {
    exists|c: Seq<nat>| c.len() == n && x == #[trigger] combination(c, polys, n)
}

/// Scaling a combination scales its coefficients.
proof fn lemma_combination_scale(s: nat, c: Seq<nat>, e: Seq<nat>, polys: Seq<u16>, n: nat)
    requires
        n <= c.len(),
        n <= e.len(),
        forall|i: int| 0 <= i < n ==> #[trigger] e[i] == poly_mul(s, c[i]),
    ensures
        combination(e, polys, n) == poly_mul(s, combination(c, polys, n)),
    decreases n,
{
    if n == 0 {
        lemma_mul_zero(s);
    } else {
        let m = (n - 1) as nat;
        lemma_combination_scale(s, c, e, polys, m);
        let p = polys[m as int] as nat;
        lemma_mul_associates(s, c[m as int], p);
        lemma_mul_add_right(s, combination(c, polys, m), poly_mul(c[m as int], p));
    }
}

/// Multiplying distributes over a sum on the right.
pub proof fn lemma_mul_add_right(u: nat, a: nat, b: nat)
    ensures
        poly_mul(u, poly_add(a, b)) == poly_add(poly_mul(u, a), poly_mul(u, b)),
    decreases u,
{
    lemma_add_halves(0, 0);
    if u > 0 {
        let v = u / 2;
        lemma_mul_add_right(v, a, b);
        let (c, d) = (poly_mul(v, a), poly_mul(v, b));
        lemma_double_add(c, d);
        let (x, y) = if u % 2 == 1 {
            (a, b)
        } else {
            (0nat, 0nat)
        };
        super::gf2::lemma_add_swap(x, 2 * c, y, 2 * d);
    }
}

/// Whether the polynomials have a common factor.
///
/// Such a code is catastrophic: some error patterns of finite weight make an
/// unbounded number of decoding errors.
pub fn is_catastrophic(polys: &[u16]) -> (catastrophic: bool)
    requires
        polys@.len() > 0,
    ensures
        catastrophic == !coprime(polys@),
        !catastrophic <==> combines(1, polys@, polys@.len()),
{
    let mut gcd: u32 = polys[0] as u32;
    let mut i: usize = 1;
    proof {
        let p = polys@[0] as nat;
        lemma_mul_one(p);
        lemma_add_halves(0, p);
        let c = seq![1nat];
        assert(combination(c, polys@, 0) == 0);
        assert(combination(c, polys@, 1) == p);
        assert(combines(p, polys@, 1));
        assert forall|d: nat| #[trigger] divides_all(d, polys@.take(1)) == divides(d, p) by {
            assert(polys@.take(1)[0] == polys@[0]);
            if divides(d, p) {
                assert(divides_all(d, polys@.take(1)));
            }
        }
    }
    while i < polys.len()
        invariant
            1 <= i <= polys@.len(),
            forall|d: nat|
                #[trigger] divides_all(d, polys@.take(i as int)) == divides(d, gcd as nat),
            combines(gcd as nat, polys@, i as nat),
        decreases polys@.len() - i,
    {
        let ghost before = gcd as nat;
        let ghost p = polys@[i as int] as nat;
        gcd = gf2_gcd(gcd, polys[i] as u32);
        proof {
            let g = gcd as nat;
            let (short, long) = (polys@.take(i as int), polys@.take(i + 1));
            assert forall|d: nat| #[trigger] divides_all(d, long) == divides(d, g) by {
                if divides_all(d, long) {
                    assert forall|k: int| 0 <= k < short.len() implies divides(
                        d,
                        #[trigger] short[k] as nat,
                    ) by {
                        assert(short[k] == long[k]);
                    }
                    assert(divides_all(d, short));
                    assert(long[i as int] == polys@[i as int]);
                    assert(divides(d, before) && divides(d, p));
                }
                if divides(d, g) {
                    lemma_divides_transitive(d, g, before);
                    lemma_divides_transitive(d, g, p);
                    assert(divides_all(d, short));
                    assert forall|k: int| 0 <= k < long.len() implies divides(
                        d,
                        #[trigger] long[k] as nat,
                    ) by {
                        if k < i {
                            assert(short[k] == long[k]);
                        }
                    }
                }
            }
            let c = choose|c: Seq<nat>|
                c.len() == i && before == #[trigger] combination(c, polys@, i as nat);
            let (s, t) = choose|s: nat, t: nat|
                g == #[trigger] poly_add(poly_mul(s, before), poly_mul(t, p));
            let scaled = Seq::new(c.len(), |k: int| poly_mul(s, c[k]));
            let e = scaled.push(t);
            lemma_combination_scale(s, c, e, polys@, i as nat);
            assert(combination(e, polys@, (i + 1) as nat) == g);
            assert(combines(g, polys@, (i + 1) as nat));
        }
        i = i + 1;
    }
    proof {
        let g = gcd as nat;
        assert(polys@.take(polys@.len() as int) =~= polys@);
        lemma_divides_self(g);
        assert(divides_all(g, polys@));
        if g == 1 {
            assert forall|d: nat| #[trigger] divides_all(d, polys@) implies d == 1 by {
                lemma_unit(d);
            }
        }
    }
    proof {
        if combines(1, polys@, polys@.len()) {
            lemma_combined_coprime(polys@);
        }
    }
    gcd != 1
}

/// What divides all the polynomials divides every combination of them.
proof fn lemma_divides_combination(d: nat, c: Seq<nat>, polys: Seq<u16>, n: nat)
    requires
        n <= polys.len(),
        n <= c.len(),
        divides_all(d, polys),
    ensures
        divides(d, combination(c, polys, n)),
    decreases n,
{
    if n == 0 {
        lemma_divides_self(d);
    } else {
        let m = (n - 1) as nat;
        let p = polys[m as int] as nat;
        lemma_divides_combination(d, c, polys, m);
        assert(divides(d, p));
        let q = choose|q: nat| #[trigger] poly_mul(q, d) == combination(c, polys, m);
        let r = choose|r: nat| #[trigger] poly_mul(r, d) == p;
        lemma_mul_associates(c[m as int], r, d);
        let s = poly_mul(c[m as int], r);
        super::gf2::lemma_mul_add_left(q, s, d);
        assert(poly_mul(poly_add(q, s), d) == combination(c, polys, n));
    }
}

/// Polynomials of which some combination is 1 have no common factor.
pub proof fn lemma_combined_coprime(polys: Seq<u16>)
    requires
        combines(1, polys, polys.len()),
    ensures
        coprime(polys),
{
    let n = polys.len();
    let c = choose|c: Seq<nat>| c.len() == n && 1 == #[trigger] combination(c, polys, n);
    assert forall|d: nat| #[trigger] divides_all(d, polys) implies d == 1 by {
        lemma_divides_combination(d, c, polys, n);
        lemma_unit(d);
    }
}

/// How many of the first `n` polynomials make a set bit of the register.
pub open spec fn state_weight(polys: Seq<u16>, state: int, n: nat) -> nat
    decreases n,
{
    if n == 0 {
        0
    } else {
        state_weight(polys, state, (n - 1) as nat) + if dot(state as nat, polys[n - 1] as nat) {
            1nat
        } else {
            0nat
        }
    }
}

pub proof fn lemma_state_weight_bound(polys: Seq<u16>, state: int, n: nat)
    ensures
        state_weight(polys, state, n) <= n,
    decreases n,
{
    if n > 0 {
        lemma_state_weight_bound(polys, state, (n - 1) as nat);
    }
}

/// The number of set bits that a register value puts out.
pub fn output_weight_for_state(state: u32, rate: u32, polys: &[u16]) -> (weight: u32)
    requires
        state < 65536,
        rate <= polys@.len(),
    ensures
        weight == state_weight(polys@, state as int, rate as nat),
        weight <= rate,
{
    let mut weight: u32 = 0;
    let mut i: u32 = 0;
    while i < rate
        invariant
            i <= rate <= polys@.len(),
            state < 65536,
            weight <= i,
            weight == state_weight(polys@, state as int, i as nat),
        decreases rate - i,
    {
        let tapped: u16 = state as u16 & polys[i as usize];
        proof {
            lemma_dot(state as u16, polys@[i as int]);
        }
        weight = weight + count_ones(tapped as u32) % 2;
        i = i + 1;
    }
    weight
}

/// Doubling the right factor doubles the product.
pub proof fn lemma_mul_double_right(u: nat, g: nat)
    ensures
        poly_mul(u, 2 * g) == 2 * poly_mul(u, g),
    decreases u,
{
    if u > 0 {
        lemma_mul_double_right(u / 2, g);
        let x = if u % 2 == 1 {
            g
        } else {
            0
        };
        lemma_double_add(x, 2 * poly_mul(u / 2, g));
    }
}

/// The product of two polynomials, without carries.
pub fn gf2_mul(u: u32, g: u32) -> (product: u32)
    requires
        poly_mul(u as nat, g as nat) <= u32::MAX,
    ensures
        product == poly_mul(u as nat, g as nat),
{
    let ghost wanted = poly_mul(u as nat, g as nat);
    let mut product: u64 = 0;
    let mut rest: u32 = u;
    let mut shifted: u64 = g as u64;
    let ghost mut left: nat = 32;
    proof {
        lemma2_to64();
        lemma_add_halves(0, wanted);
        assert(g * 1 == g);
    }
    while rest != 0
        invariant
            left <= 32,
            rest < pow2(left),
            shifted < pow2((64 - left) as nat),
            poly_add(product as nat, poly_mul(rest as nat, shifted as nat)) == wanted,
        decreases rest,
    {
        let ghost (p, r, s) = (product as nat, rest as nat, shifted as nat);
        let ghost tail = 2 * poly_mul(r / 2, s);
        proof {
            lemma2_to64();
            if left == 0 {
                assert(rest == 0);
            }
            lemma_pow2_unfold(left);
            lemma_pow2_unfold((65 - left) as nat);
            if left > 1 {
                lemma_pow2_strictly_increases((65 - left) as nat, 64);
            }
            lemma_mul_double_right(r / 2, s);
            lemma_word_add(product, shifted);
            lemma_add_associates(p, s, tail);
            lemma_add_halves(0, tail);
            left = (left - 1) as nat;
        }
        if rest % 2 == 1 {
            product = product ^ shifted;
        }
        rest = rest / 2;
        if rest != 0 {
            shifted = 2 * shifted;
        }
        proof {
            if rest == 0 {
                lemma_mul_zero(s);
                lemma_mul_zero(2 * s);
                assert(poly_mul(r / 2, s) == 0);
                if left > 0 {
                    if 64 - left > 64 - (left + 1) {
                        lemma_pow2_strictly_increases((63 - left) as nat, (64 - left) as nat);
                    }
                }
            }
        }
    }
    proof {
        lemma_mul_zero(shifted as nat);
        lemma_add_halves(product as nat, 0);
    }
    product as u32
}

/// The weight of the output for the input `u`, over the first `n` polynomials.
pub open spec fn input_weight(polys: Seq<u16>, u: nat, n: nat) -> nat
    decreases n,
{
    if n == 0 {
        0
    } else {
        input_weight(polys, u, (n - 1) as nat) + ones(poly_mul(u, polys[n - 1] as nat))
    }
}

/// Products of 16-bit polynomials fit 32 bits.
pub proof fn lemma_mul_fits(u: nat, g: nat)
    requires
        u < 65536,
        g < 65536,
    ensures
        poly_mul(u, g) < 0x1_0000_0000,
{
    lemma_mul_zero(u);
    lemma_mul_zero(g);
    lemma2_to64();
    if u > 0 && g > 0 {
        let (a, b) = (lemma_degree_exists(u), lemma_degree_exists(g));
        lemma_mul_degree(u, g, a, b);
        if a >= 16 {
            if a > 16 {
                lemma_pow2_strictly_increases(16, a);
            }
        }
        if b >= 16 {
            if b > 16 {
                lemma_pow2_strictly_increases(16, b);
            }
        }
        lemma_pow2_strictly_increases(a + b + 1, 32);
    }
}

/// The weight of the output for the input `u`.
pub fn output_weight_for_input(u: u32, polys: &[u16]) -> (weight: u32)
    requires
        u < 65536,
        polys@.len() <= 0x0400_0000,
    ensures
        weight == input_weight(polys@, u as nat, polys@.len()),
{
    let mut weight: u32 = 0;
    let mut i: usize = 0;
    while i < polys.len()
        invariant
            i <= polys@.len() <= 0x0400_0000,
            u < 65536,
            weight == input_weight(polys@, u as nat, i as nat),
            weight <= 32 * i,
        decreases polys@.len() - i,
    {
        proof {
            lemma_mul_fits(u as nat, polys@[i as int] as nat);
        }
        weight = weight + count_ones(gf2_mul(u, polys[i] as u32));
        i = i + 1;
    }
    weight
}

} // verus!
