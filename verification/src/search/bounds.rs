//! Upper bounds on the free distance of a code of given rate and order.

use vstd::arithmetic::power2::{lemma2_to64, lemma_pow2_pos, lemma_pow2_strictly_increases, lemma_pow2_unfold, pow2};
use vstd::prelude::*;

verus! {

/// One term of the Heller bound, rounded down.
pub open spec fn heller_term(rate: int, order: int, k: nat) -> int {
    (rate * pow2(k) * (order + k - 1)) / (2 * (pow2(k) - 1))
}

proof fn lemma_pow2_above(n: nat)
    ensures
        pow2(n) >= n + 1,
    decreases n,
{
    lemma2_to64();
    if n > 0 {
        lemma_pow2_above((n - 1) as nat);
        lemma_pow2_unfold(n);
    }
}

/// From `order` on the terms do not get smaller.
proof fn lemma_heller_grows(rate: int, order: int, k: nat)
    requires
        rate >= 0,
        1 <= order <= k,
    ensures
        heller_term(rate, order, k) <= heller_term(rate, order, k + 1),
{
    let p = pow2(k) as int;
    let m = order + k;
    lemma2_to64();
    lemma_pow2_unfold(k + 1);
    lemma_pow2_unfold(k);
    lemma_pow2_pos((k - 1) as nat);
    lemma_pow2_above(k);
    let (a, b) = (rate * p * (m - 1), 2 * (p - 1));
    let (c, d) = (rate * (2 * p) * m, 2 * (2 * p - 1));
    assert((m - 1) * (2 * p - 1) <= 2 * m * (p - 1)) by (nonlinear_arith)
        requires
            m + 1 <= 2 * p,
    ;
    let (f, g) = ((m - 1) * (2 * p - 1), 2 * m * (p - 1));
    assert(a * d == 2 * (rate * p) * f && c * b == 2 * (rate * p) * g) by (nonlinear_arith)
        requires
            a == rate * p * (m - 1),
            d == 2 * (2 * p - 1),
            c == rate * (2 * p) * m,
            b == 2 * (p - 1),
            f == (m - 1) * (2 * p - 1),
            g == 2 * m * (p - 1),
    ;
    assert(a * d <= c * b) by (nonlinear_arith)
        requires
            a * d == 2 * (rate * p) * f,
            c * b == 2 * (rate * p) * g,
            f <= g,
            rate >= 0,
            p >= 0,
    ;
    let q = a / b;
    vstd::arithmetic::div_mod::lemma_fundamental_div_mod(a, b);
    assert(0 <= a) by (nonlinear_arith)
        requires
            a == rate * p * (m - 1),
            rate >= 0,
            p >= 0,
            m >= 1,
    ;
    assert(q * d <= c) by (nonlinear_arith)
        requires
            a == b * q + a % b,
            0 <= a % b,
            a * d <= c * b,
            b >= 1,
            d >= 1,
    ;
    assert(q <= c / d) by (nonlinear_arith)
        requires
            q * d <= c,
            d >= 1,
    ;
    assert(rate * pow2(k + 1) * (order + (k + 1) - 1) == c) by (nonlinear_arith)
        requires
            pow2(k + 1) == 2 * p,
            m == order + k,
            c == rate * (2 * p) * m,
    ;
}

/// So the least of the terms is among the first `order`.
proof fn lemma_heller_rest(rate: int, order: int, k: nat)
    requires
        rate >= 0,
        1 <= order <= k,
    ensures
        heller_term(rate, order, order as nat) <= heller_term(rate, order, k),
    decreases k,
{
    if k > order {
        lemma_heller_rest(rate, order, (k - 1) as nat);
        lemma_heller_grows(rate, order, (k - 1) as nat);
    }
}

/// The Heller bound: the least of its terms, which is found at a `k` of `order` at
/// most. With no register there is no term, and no bound.
pub fn heller(rate: u32, order: u32) -> (bound: u32)
    requires
        order <= 31,
        rate * pow2(order as nat) * (2 * order - 1) <= u32::MAX,
    ensures
        order > 0 ==> forall|k: nat|
            1 <= k ==> bound <= #[trigger] heller_term(rate as int, order as int, k),
        order > 0 ==> exists|k: nat|
            1 <= k <= order && bound == #[trigger] heller_term(rate as int, order as int, k),
        order == 0 ==> bound == u32::MAX,
{
    let mut least: u32 = u32::MAX;
    let mut k: u32 = 1;
    let mut power: u32 = 2;
    let ghost mut at: nat = 0;
    proof {
        lemma2_to64();
    }
    while k <= order
        invariant
            1 <= k <= order + 1,
            order <= 31,
            k <= order ==> power == pow2(k as nat),
            rate * pow2(order as nat) * (2 * order - 1) <= u32::MAX,
            forall|j: nat|
                1 <= j < k ==> least <= #[trigger] heller_term(rate as int, order as int, j),
            k > 1 ==> 1 <= at < k && least == heller_term(rate as int, order as int, at),
            k == 1 ==> least == u32::MAX,
        decreases order + 1 - k,
    {
        let ghost p = pow2(k as nat) as int;
        proof {
            let top = pow2(order as nat) as int;
            if k < order {
                lemma_pow2_strictly_increases(k as nat, order as nat);
            }
            lemma_pow2_unfold(k as nat);
            lemma_pow2_pos((k - 1) as nat);
            let (a, b) = (rate * p, (order + k - 1) as int);
            let c = rate * top;
            assert(0 <= a <= c && 0 <= a * b <= c * (2 * order - 1)) by (nonlinear_arith)
                requires
                    a == rate * p,
                    c == rate * top,
                    0 <= p <= top,
                    0 <= b <= 2 * order - 1,
                    rate >= 0,
            ;
            assert(a <= u32::MAX) by (nonlinear_arith)
                requires
                    0 <= a * b <= u32::MAX,
                    b >= 1,
                    a >= 0,
            ;
            lemma2_to64();
            if k < 31 {
                lemma_pow2_strictly_increases(k as nat, 31);
            }
        }
        let numerator: u32 = rate * power * (order + k - 1);
        let denominator: u32 = 2 * (power - 1);
        let term: u32 = numerator / denominator;
        proof {
            assert(term == heller_term(rate as int, order as int, k as nat));
        }
        if k == 1 || term < least {
            least = term;
            proof {
                at = k as nat;
            }
        }
        if k < order {
            proof {
                lemma_pow2_unfold((k + 1) as nat);
                lemma2_to64();
                if k + 1 < 31 {
                    lemma_pow2_strictly_increases((k + 1) as nat, 31);
                }
            }
            power = 2 * power;
        }
        k = k + 1;
    }
    proof {
        if order > 0 {
            assert(least == heller_term(rate as int, order as int, at));
            assert forall|k: nat| 1 <= k implies least <= #[trigger] heller_term(
                rate as int,
                order as int,
                k,
            ) by {
                if k > order {
                    lemma_heller_rest(rate as int, order as int, k);
                    assert(least <= heller_term(rate as int, order as int, order as nat));
                }
            }
        }
    }
    least
}

/// `d / 2^j`, rounded up.
pub open spec fn halved(d: int, j: nat) -> int {
    (d + pow2(j) - 1) / (pow2(j) as int)
}

/// The length that the Griesmer bound asks of a code of `i` bits with distance
/// `d`.
pub open spec fn griesmer_length(d: int, i: nat) -> int
    decreases i,
{
    if i == 0 {
        0
    } else {
        griesmer_length(d, (i - 1) as nat) + halved(d, (i - 1) as nat)
    }
}

/// No message length rules the distance `d` out.
pub open spec fn griesmer_allows(rate: int, order: int, d: int) -> bool {
    forall|i: nat| i >= 1 ==> #[trigger] griesmer_length(d, i) <= rate * (order + i - 1)
}

proof fn lemma_halved(d: int, j: nat)
    requires
        d >= 1,
    ensures
        halved(d, j) >= 1,
        halved(d, j) <= d,
        halved(d, j) == 1 <==> d <= pow2(j),
        halved(d, 0) == d,
{
    lemma2_to64();
    lemma_pow2_pos(j);
    let p = pow2(j) as int;
    let q = (d + p - 1) / p;
    vstd::arithmetic::div_mod::lemma_fundamental_div_mod(d + p - 1, p);
    let m = (d + p - 1) % p;
    assert(q >= 1 && q <= d && (d <= p ==> q == 1) && (q == 1 ==> d <= p)) by (nonlinear_arith)
        requires
            d + p - 1 == p * q + m,
            0 <= m < p,
            d >= 1,
            p >= 1,
    ;
    assert((d + 1 - 1) / 1 == d);
}

/// Once the terms have come down to 1 they stay there, and the length grows no
/// faster than the code does.
proof fn lemma_griesmer_tail(rate: int, order: int, d: int, i: nat, m: nat)
    requires
        d >= 1,
        1 <= i <= m,
        rate >= 1,
        halved(d, (i - 1) as nat) == 1,
        griesmer_length(d, i) <= rate * (order + i - 1),
    ensures
        griesmer_length(d, m) <= rate * (order + m - 1),
    decreases m,
{
    if m > i {
        let n = (m - 1) as nat;
        lemma_griesmer_tail(rate, order, d, i, n);
        lemma_halved(d, (i - 1) as nat);
        lemma_halved(d, n);
        if i - 1 < n {
            lemma_pow2_strictly_increases((i - 1) as nat, n);
        }
        assert(rate * (order + m - 1) == rate * (order + n - 1) + rate) by (nonlinear_arith)
            requires
                m == n + 1,
        ;
    }
}

/// The Griesmer bound: the largest distance that no message length rules out.
pub fn griesmer(rate: u32, order: u32) -> (bound: u32)
    requires
        rate * order < u32::MAX,
    ensures
        forall|d: int|
            1 <= d <= bound ==> #[trigger] griesmer_allows(rate as int, order as int, d),
        !griesmer_allows(rate as int, order as int, bound + 1),
{
    let ghost (r, o) = (rate as int, order as int);
    assert(0 <= r * o) by (nonlinear_arith)
        requires
            r >= 0,
            o >= 0,
    ;
    let mut d: u64 = 1;
    loop
        invariant
            r == rate,
            o == order,
            1 <= d <= r * o + 1,
            r * o < u32::MAX,
            forall|e: int| 1 <= e < d ==> #[trigger] griesmer_allows(r, o, e),
        decreases r * o + 1 - d,
    {
        let mut sum: u64 = 0;
        let mut d_i: u64 = d;
        let mut i: u32 = 0;
        let mut power: u64 = 1;
        proof {
            lemma2_to64();
            lemma_halved(d as int, 0);
        }
        loop
            invariant_except_break
                d_i == halved(d as int, i as nat),
                i > 0 ==> d_i >= 1 && halved(d as int, (i - 1) as nat) > 1,
                i <= 32,
            invariant
                r == rate,
                o == order,
                1 <= d <= r * o + 1,
                r * o < u32::MAX,
                forall|e: int| 1 <= e < d ==> #[trigger] griesmer_allows(r, o, e),
                i <= 33,
                power == pow2(i as nat),
                sum == griesmer_length(d as int, i as nat),
                i >= 1 ==> d <= r * o,
                i >= 1 ==> sum <= r * (o + i - 1),
                forall|m: nat|
                    1 <= m <= i ==> #[trigger] griesmer_length(d as int, m) <= r * (o + m - 1),
            ensures
                i >= 1,
                halved(d as int, (i - 1) as nat) == 1,
            decreases 33 - i,
        {
            let ghost old_i = i;
            proof {
                lemma_halved(d as int, i as nat);
                let steps = i as int;
                assert(0 <= r * (o + steps) <= 34 * 0xffff_ffff && r * (o + steps - 1) <= 34
                    * 0xffff_ffff) by (nonlinear_arith)
                    requires
                        0 <= r <= 0xffff_ffff,
                        0 <= o,
                        0 <= r * o <= 0xffff_ffff,
                        0 <= steps <= 33,
                ;
                assert(griesmer_length(d as int, (i + 1) as nat) == griesmer_length(
                    d as int,
                    i as nat,
                ) + halved(d as int, i as nat));
            }
            i = i + 1;
            sum = sum + d_i;
            let length: u64 = rate as u64 * (order as u64 + i as u64 - 1);
            if length < sum {
                // the last distance that passed is the bound
                proof {
                    assert(griesmer_length(d as int, i as nat) > r * (o + i - 1));
                    assert(!griesmer_allows(r, o, d as int));
                }
                return (d - 1) as u32;
            }
            proof {
                lemma_pow2_unfold(i as nat);
                if i == 1 {
                    assert(griesmer_length(d as int, 0) == 0);
                    assert(r * (o + 1 - 1) == r * o);
                    lemma_halved(d as int, 0);
                }
            }
            if i <= 33 {
                proof {
                    lemma2_to64();
                    if i < 40 {
                        lemma_pow2_strictly_increases(i as nat, 40);
                    }
                }
                power = 2 * power;
            }
            if d_i == 1 {
                break ;
            }
            proof {
                // a term above 1 means that the distance is above the power
                lemma2_to64();
                if old_i >= 32 {
                    if old_i > 32 {
                        lemma_pow2_strictly_increases(32, old_i as nat);
                    }
                    assert(false);
                }
                lemma_halved(d as int, i as nat);
            }
            d_i = (d + power - 1) / power;
        }
        proof {
            assert(r >= 1) by (nonlinear_arith)
                requires
                    1 <= d <= r * o,
                    r >= 0,
                    o >= 0,
            ;
            assert forall|m: nat| m >= 1 implies #[trigger] griesmer_length(d as int, m) <= r * (o
                + m - 1) by {
                if m > i {
                    lemma_griesmer_tail(r, o, d as int, i as nat, m);
                }
            }
            assert(griesmer_allows(r, o, d as int));
        }
        d = d + 1;
    }
}

} // verus!
