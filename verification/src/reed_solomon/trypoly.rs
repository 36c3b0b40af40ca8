//! Search for primitive polynomials of degree eight.

use super::field::lemma_double;
use super::galois::{
    alpha_pow, is_degree_eight, is_primitive, lemma_alpha_distinct, lemma_mul_x, mul_x,
};
use vstd::prelude::*;

verus! {

/// The first `n` powers of alpha, from the first on, all differ.
pub open spec fn all_differ(p: u16, n: nat) -> bool {
    forall|i: nat, j: nat|
        1 <= i < j <= n ==> #[trigger] alpha_pow(p, i) != #[trigger] alpha_pow(p, j)
}

/// Distinct powers of alpha lie in no set of fewer bytes.
proof fn lemma_too_many(p: u16, within: Set<int>)
    requires
        all_differ(p, 255),
        within.finite(),
        forall|k: nat| 1 <= k <= 255 ==> within.contains(#[trigger] alpha_pow(p, k) as int),
    ensures
        within.len() >= 255,
{
    let v = Seq::new(255, |i: int| alpha_pow(p, (i + 1) as nat) as int);
    assert(v.no_duplicates()) by {
        assert forall|i: int, j: int|
            0 <= i < v.len() && 0 <= j < v.len() && i != j implies v[i] != v[j] by {
            if i < j {
                assert(alpha_pow(p, (i + 1) as nat) != alpha_pow(p, (j + 1) as nat));
            } else {
                assert(alpha_pow(p, (j + 1) as nat) != alpha_pow(p, (i + 1) as nat));
            }
        }
    }
    v.unique_seq_to_set();
    assert(v.to_set().subset_of(within)) by {
        assert forall|x: int| v.to_set().contains(x) implies within.contains(x) by {
            let i = choose|i: int| 0 <= i < v.len() && v[i] == x;
            assert(within.contains(alpha_pow(p, (i + 1) as nat) as int));
        }
    }
    vstd::set_lib::lemma_len_subset(v.to_set(), within);
}

/// Without a constant term every multiple of alpha is even.
proof fn lemma_even(p: u16, a: u8)
    requires
        is_degree_eight(p),
        p & 1 != 1,
    ensures
        mul_x(p, a) % 2 == 0,
{
    assert(mul_x(p, a) % 2 == 0) by (bit_vector)
        requires
            p & 1 != 1,
    ;
}

/// 255 distinct powers are all the nonzero bytes, so alpha generates them.
pub proof fn lemma_distinct_is_primitive(p: u16)
    requires
        is_degree_eight(p),
        all_differ(p, 255),
    ensures
        is_primitive(p),
{
    vstd::set_lib::lemma_int_range(0, 128);
    vstd::set_lib::lemma_int_range(1, 255);
    if p & 1 != 1 {
        // the halves of the powers are 128 values at most
        let halves = vstd::set_lib::set_int_range(0, 128);
        let evens = halves.map(|h: int| 2 * h);
        vstd::set_lib::lemma_map_size(halves, evens, |h: int| 2 * h);
        assert forall|k: nat| 1 <= k <= 255 implies evens.contains(
            #[trigger] alpha_pow(p, k) as int,
        ) by {
            lemma_even(p, alpha_pow(p, (k - 1) as nat));
            let h = alpha_pow(p, k) as int / 2;
            assert(halves.contains(h));
            assert(2 * h == alpha_pow(p, k) as int);
        }
        lemma_too_many(p, evens);
        assert(false);
    }
    assert forall|k: nat| alpha_pow(p, k) != 0 by {
        lemma_never_zero(p, k);
    }
    assert forall|k: nat| 0 < k < 255 implies #[trigger] alpha_pow(p, k) != 1 by {
        if alpha_pow(p, k) == 1 {
            assert(alpha_pow(p, 0) == 1);
            assert(alpha_pow(p, 1) == mul_x(p, alpha_pow(p, 0)));
            assert(alpha_pow(p, k + 1) == mul_x(p, alpha_pow(p, k)));
            assert(alpha_pow(p, 1) != alpha_pow(p, k + 1));
        }
    }
    if alpha_pow(p, 255) != 1 {
        // then the powers lie in 2..=255
        let others = vstd::set_lib::set_int_range(2, 256);
        vstd::set_lib::lemma_int_range(2, 256);
        assert forall|k: nat| 1 <= k <= 255 implies others.contains(
            #[trigger] alpha_pow(p, k) as int,
        ) by {}
        lemma_too_many(p, others);
    }
}

proof fn lemma_never_zero(p: u16, k: nat)
    requires
        is_degree_eight(p),
        p & 1 == 1,
    ensures
        alpha_pow(p, k) != 0,
    decreases k,
{
    if k > 0 {
        lemma_never_zero(p, (k - 1) as nat);
        lemma_mul_x(p, alpha_pow(p, (k - 1) as nat), 0);
    }
}

/// Whether a polynomial of degree eight is primitive: the powers of alpha visit
/// every nonzero element exactly once. Builds the table of logarithms and looks
/// for collisions.
pub fn trypoly(poly: u16, log: &mut [u8]) -> (primitive: bool)
    requires
        is_degree_eight(poly),
        old(log)@.len() == 256,
    ensures
        primitive == is_primitive(poly),
        final(log)@.len() == 256,
        primitive ==> forall|k: nat|
            1 <= k <= 255 ==> final(log)@[#[trigger] alpha_pow(poly, k) as int] == k,
{
    let mut i: usize = 0;
    while i < 256
        invariant
            i <= 256,
            log@.len() == 256,
            forall|e: int| 0 <= e < i ==> #[trigger] log@[e] == 0,
        decreases 256 - i,
    {
        log[i] = 0;
        i = i + 1;
    }
    let mut element: u16 = 1;
    let mut power: u16 = 1;
    assert(alpha_pow(poly, 0) == 1);
    while power <= 255
        invariant
            1 <= power <= 256,
            is_degree_eight(poly),
            log@.len() == 256,
            element < 256,
            element as u8 == alpha_pow(poly, (power - 1) as nat),
            all_differ(poly, (power - 1) as nat),
            forall|k: nat| 1 <= k < power ==> log@[#[trigger] alpha_pow(poly, k) as int] == k,
            forall|e: int|
                0 <= e < 256 && #[trigger] log@[e] != 0 ==> 1 <= log@[e] < power && alpha_pow(
                    poly,
                    log@[e] as nat,
                ) == e,
        decreases 256 - power,
    {
        proof {
            lemma_double(poly, element);
        }
        element = element * 2;
        if element > 255 {
            element = element ^ poly;
        }
        assert(element as u8 == alpha_pow(poly, power as nat));
        let ghost before = log@;
        if log[element as usize] != 0 {
            proof {
                let k = log@[element as int] as nat;
                assert(alpha_pow(poly, k) == alpha_pow(poly, power as nat));
                if is_primitive(poly) {
                    lemma_alpha_distinct(poly, k, power as nat);
                }
            }
            return false;
        }
        log[element as usize] = power as u8;
        proof {
            assert forall|k: nat, j: nat| 1 <= k < j <= power implies #[trigger] alpha_pow(poly, k)
                != #[trigger] alpha_pow(poly, j) by {
                if j == power {
                    assert(before[alpha_pow(poly, k) as int] == k);
                }
            }
            assert forall|k: nat| 1 <= k < power + 1 implies log@[#[trigger] alpha_pow(
                poly,
                k,
            ) as int] == k by {
                if k < power {
                    assert(before[alpha_pow(poly, k) as int] == k);
                }
            }
        }
        power = power + 1;
    }
    proof {
        lemma_distinct_is_primitive(poly);
    }
    true
}

/// Bit `j` of `p` is set.
pub open spec fn has_term(p: u16, j: u16) -> bool {
    (p as int / vstd::arithmetic::power2::pow2(j as nat) as int) % 2 == 1
}

/// The powers of x in a polynomial of degree eight, highest first.
pub fn powers_of(poly: u16) -> (powers: Vec<u16>)
    requires
        is_degree_eight(poly),
    ensures
        forall|i: int, j: int| 0 <= i < j < powers@.len() ==> powers@[i] > powers@[j],
        forall|k: u16|
            #[trigger] powers@.contains(k) <==> (k <= 8 && has_term(poly, k)),
{
    let mut powers: Vec<u16> = Vec::new();
    let mut power: u16 = 9;
    let mut weight: u16 = 512;
    proof {
        vstd::arithmetic::power2::lemma2_to64();
    }
    while power > 0
        invariant
            power <= 9,
            weight == vstd::arithmetic::power2::pow2(power as nat),
            forall|i: int, j: int| 0 <= i < j < powers@.len() ==> powers@[i] > powers@[j],
            forall|i: int| 0 <= i < powers@.len() ==> #[trigger] powers@[i] >= power,
            forall|k: u16|
                #[trigger] powers@.contains(k) <==> (power <= k <= 8 && has_term(poly, k)),
        decreases power,
    {
        proof {
            vstd::arithmetic::power2::lemma_pow2_unfold(power as nat);
            vstd::arithmetic::power2::lemma_pow2_pos((power - 1) as nat);
        }
        power = power - 1;
        weight = weight / 2;
        let ghost before = powers@;
        if (poly / weight) % 2 == 1 {
            assert(has_term(poly, power));
            powers.push(power);
            proof {
                assert(powers@[before.len() as int] == power);
                assert forall|k: u16|
                    #[trigger] powers@.contains(k) <==> (power <= k <= 8 && has_term(poly, k)) by {
                    if powers@.contains(k) {
                        let i = choose|i: int| 0 <= i < powers@.len() && powers@[i] == k;
                        if i < before.len() {
                            assert(before[i] == k);
                            assert(before.contains(k));
                        }
                    }
                    if before.contains(k) {
                        let i = choose|i: int| 0 <= i < before.len() && before[i] == k;
                        assert(powers@[i] == k);
                    }
                }
            }
        } else {
            assert(!has_term(poly, power));
        }
    }
    powers
}

} // verus!
