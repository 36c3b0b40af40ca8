//! All the sets of polynomials for a rate and an order, in order, from any
//! place.
//!
//! Every polynomial has its highest and its lowest bit set, or the code would be
//! one of lower order. So a polynomial stands for the value of its middle bits.
//! Permuting the polynomials of a code changes nothing, so each set is listed
//! once, with its values in ascending order.

use crate::convolutional::util;
use vstd::arithmetic::power2::{lemma2_to64, lemma_pow2_pos, lemma_pow2_strictly_increases, lemma_pow2_unfold, pow2};
use vstd::prelude::*;

verus! {

/// The number of ways to choose `s` out of `v` values, with repetition, where the
/// order does not matter.
pub open spec fn multichoose(v: nat, s: nat) -> nat
    decreases v + s,
{
    if s == 0 {
        1
    } else if v == 0 {
        0
    } else {
        multichoose((v - 1) as nat, s) + multichoose(v, (s - 1) as nat)
    }
}

proof fn lemma_multichoose_one(v: nat, s: nat)
    ensures
        multichoose(1, s) == 1,
        multichoose(v, 1) == v,
    decreases v + s,
{
    if s > 0 {
        lemma_multichoose_one(0, (s - 1) as nat);
        assert(multichoose(0, s) == 0);
    }
    if v > 0 {
        lemma_multichoose_one((v - 1) as nat, 0);
        assert(multichoose(v, 0) == 1);
    }
}

/// More values or more slots leave more choices.
proof fn lemma_multichoose_grows(v: nat, w: nat, s: nat)
    requires
        v <= w,
    ensures
        multichoose(v, s) <= multichoose(w, s),
        v >= 1 ==> multichoose(v, s) >= 1,
    decreases w, s,
{
    if s > 0 {
        if v < w {
            lemma_multichoose_grows(v, (w - 1) as nat, s);
        }
        if v >= 1 {
            lemma_multichoose_grows(v, v, (s - 1) as nat);
        }
    }
}

/// The ratio of neighbouring counts.
pub proof fn lemma_multichoose_ratio(v: nat, s: nat)
    ensures
        (s + 1) * multichoose(v, s + 1) == (v + s) * multichoose(v, s),
        v >= 1 ==> (v - 1) * multichoose(v, s) == (v - 1 + s) * multichoose((v - 1) as nat, s),
    decreases v + s,
{
    if v == 0 {
        let z = multichoose(0, s);
        assert(multichoose(0, s + 1) == 0);
        assert((s + 1) * 0 == 0);
        assert((0 + s) * z == 0) by (nonlinear_arith)
            requires
                s == 0 || z == 0,
        ;
    } else {
        let u = (v - 1) as nat;
        lemma_multichoose_ratio(u, s);
        let (a, b, c, d) = (
            multichoose(u, s) as int,
            multichoose(v, s) as int,
            multichoose(u, s + 1) as int,
            multichoose(v, s + 1) as int,
        );
        let (i, j) = (u as int, s as int);
        if s == 0 {
            assert(a == 1 && b == 1);
            assert(i * b == (i + j) * a) by (nonlinear_arith)
                requires
                    a == 1,
                    b == 1,
                    j == 0,
            ;
        } else {
            let t = (s - 1) as nat;
            lemma_multichoose_ratio(v, t);
            lemma_multichoose_ratio(u, t);
            let (e, f) = (multichoose(u, t) as int, multichoose(v, t) as int);
            assert(i * b == (i + j) * a) by (nonlinear_arith)
                requires
                    b == a + f,
                    i * f == (i + (j - 1)) * e,
                    j * a == (i + (j - 1)) * e,
            ;
        }
        assert(d == c + b);
        assert((j + 1) * d == (i + 1 + j) * b) by (nonlinear_arith)
            requires
                d == c + b,
                (j + 1) * c == (i + j) * a,
                i * b == (i + j) * a,
        ;
    }
}

/// The counts on the way to `slots` slots fit the arithmetic.
pub open spec fn choices_fit(values: nat, slots: nat) -> bool {
    forall|i: nat|
        i < slots ==> #[trigger] multichoose(values, i) * (values + i) <= u128::MAX
}

/// Then the count itself fits.
pub proof fn lemma_choices_fit(v: nat, s: nat)
    requires
        choices_fit(v, s),
    ensures
        multichoose(v, s) <= u128::MAX,
{
    if s > 0 {
        let t = (s - 1) as nat;
        lemma_multichoose_ratio(v, t);
        assert(multichoose(v, t) * (v + t) <= u128::MAX);
        let (a, b) = (multichoose(v, t), multichoose(v, s));
        assert(b <= a * (v + t)) by (nonlinear_arith)
            requires
                s * b == (v + t) * a,
                s >= 1,
        ;
    }
}

/// The number of ways to fill `slots` slots with `values` values in ascending
/// order, repetition allowed.
pub fn combinations_with_repetition(values: u128, slots: u128) -> (count: u128)
    requires
        choices_fit(values as nat, slots as nat),
        values + slots <= u128::MAX,
    ensures
        count == multichoose(values as nat, slots as nat),
{
    let mut count: u128 = 1;
    let mut i: u128 = 0;
    while i < slots
        invariant
            i <= slots,
            values + slots <= u128::MAX,
            choices_fit(values as nat, slots as nat),
            count == multichoose(values as nat, i as nat),
        decreases slots - i,
    {
        proof {
            let (v, s) = (values as nat, i as nat);
            lemma_multichoose_ratio(v, s);
            assert(multichoose(v, s) * (v + s) <= u128::MAX);
            let (n, d, q) = (
                multichoose(v, s) * (v + s),
                (s + 1) as int,
                multichoose(v, s + 1) as int,
            );
            assert(count * (values + i) >= 0) by (nonlinear_arith);
            assert(n == q * d) by (nonlinear_arith)
                requires
                    d * q == (v + s) * multichoose(v, s),
                    n == multichoose(v, s) * (v + s),
            ;
            vstd::arithmetic::div_mod::lemma_fundamental_div_mod_converse(n as int, d, q, 0);
        }
        // each division is exact, because the divisors ascend
        count = count * (values + i) / (i + 1);
        i = i + 1;
    }
    count
}

/// Whether the counts on the way to `slots` slots fit the arithmetic.
fn counts_fit(values: u128, slots: u128) -> (fits: bool)
    requires
        values + slots <= u128::MAX,
    ensures
        fits == choices_fit(values as nat, slots as nat),
{
    let ghost (v, s) = (values as nat, slots as nat);
    let mut count: u128 = 1;
    let mut i: u128 = 0;
    while i < slots
        invariant
            i <= slots,
            values + slots <= u128::MAX,
            v == values,
            s == slots,
            choices_fit(v, i as nat),
            count == multichoose(v, i as nat),
        decreases slots - i,
    {
        let next: Option<u128> = count.checked_mul(values + i);
        proof {
            lemma_multichoose_ratio(v, i as nat);
            let (n, d, q) = (
                multichoose(v, i as nat) * (v + i),
                (i + 1) as int,
                multichoose(v, (i + 1) as nat) as int,
            );
            assert(n == q * d) by (nonlinear_arith)
                requires
                    d * q == (v + i) * multichoose(v, i as nat),
                    n == multichoose(v, i as nat) * (v + i),
            ;
            vstd::arithmetic::div_mod::lemma_fundamental_div_mod_converse(n as int, d, q, 0);
        }
        match next {
            Some(product) => {
                assert forall|j: nat| j < i + 1 implies #[trigger] multichoose(v, j) * (v + j)
                    <= u128::MAX by {
                    if j < i {
                        assert(choices_fit(v, i as nat));
                    }
                }
                count = product / (i + 1);
            },
            None => {
                assert(multichoose(v, i as nat) * (v + i) > u128::MAX);
                return false;
            },
        }
        i = i + 1;
    }
    true
}

/// The number of values of the middle bits.
pub open spec fn values_per_slot(order: nat) -> nat {
    if order <= 2 {
        1
    } else {
        pow2((order - 2) as nat)
    }
}

/// For rates and orders that the decoders take, the counts fit the arithmetic.
pub proof fn lemma_small_choices_fit(rate: nat, order: nat)
    requires
        rate <= 8,
        order <= 16,
    ensures
        choices_fit(values_per_slot(order), rate),
        multichoose(values_per_slot(order), rate) * 100 <= u128::MAX,
{
    let v = values_per_slot(order);
    lemma2_to64();
    if 2 < order && order - 2 < 14 {
        lemma_pow2_strictly_increases((order - 2) as nat, 14);
    }
    assert forall|i: nat| i < rate implies #[trigger] multichoose(v, i) * (v + i)
        <= u128::MAX by {
        lemma_multichoose_bound(v, i);
        let m = multichoose(v, i) as int;
        assert(m * (v + i) <= m * 16392) by (nonlinear_arith)
            requires
                v + i <= 16392,
                m >= 0,
        ;
        reveal_with_fuel(grown, 9);
    }
    lemma_multichoose_bound(v, rate);
    reveal_with_fuel(grown, 9);
}

/// A bound on the counts.
spec fn grown(s: nat) -> int
    decreases s,
{
    if s == 0 {
        1
    } else {
        16392 * grown((s - 1) as nat)
    }
}

proof fn lemma_multichoose_bound(v: nat, s: nat)
    requires
        v <= 16384,
        s <= 8,
    ensures
        multichoose(v, s) <= grown(s),
    decreases s,
{
    if s > 0 {
        let t = (s - 1) as nat;
        lemma_multichoose_bound(v, t);
        lemma_multichoose_ratio(v, t);
        let (a, b) = (multichoose(v, t) as int, multichoose(v, s) as int);
        assert(b <= 16392 * a) by (nonlinear_arith)
            requires
                s * b == (v + t) * a,
                s >= 1,
                v + t <= 16392,
                a >= 0,
                b >= 0,
        ;
    }
}

/// The number of sets of polynomials for a rate and an order.
pub fn candidate_count(rate: u32, order: u32) -> (count: u128)
    requires
        order <= 33,
        choices_fit(values_per_slot(order as nat), rate as nat),
    ensures
        count == multichoose(values_per_slot(order as nat), rate as nat),
{
    proof {
        lemma2_to64();
    }
    let p: u128 = if order <= 2 {
        1
    } else {
        util::num_states_for_order(order - 2) as u128
    };
    combinations_with_repetition(p, rate as u128)
}

/// Whether [`candidate_count`] can count the sets for a rate and an order.
pub fn can_count(rate: u32, order: u32) -> (fits: bool)
    requires
        order <= 33,
    ensures
        fits == choices_fit(values_per_slot(order as nat), rate as nat),
{
    proof {
        lemma2_to64();
    }
    let p: u128 = if order <= 2 {
        1
    } else {
        util::num_states_for_order(order - 2) as u128
    };
    counts_fit(p, rate as u128)
}

/// The value before place `i`; zero before the first.
pub open spec fn value_before(v: Seq<nat>, i: int) -> nat {
    if i <= 0 {
        0
    } else {
        v[i - 1]
    }
}

/// Values below `p` in ascending order.
pub open spec fn is_ascending(v: Seq<nat>, p: nat) -> bool {
    &&& forall|i: int| 0 <= i < v.len() ==> #[trigger] v[i] < p
    &&& forall|i: int, j: int| 0 <= i <= j < v.len() ==> v[i] <= v[j]
}

/// How many sequences come before `v` because of what they hold in place `i`,
/// having the same values before it: with `n - i` places left there are
/// `multichoose(p - x, n - i)` that continue with `x` or more.
pub open spec fn skipped_at(v: Seq<nat>, p: nat, i: int) -> int {
    let left = (v.len() - i) as nat;
    multichoose((p - value_before(v, i)) as nat, left) - multichoose((p - v[i]) as nat, left)
}

/// How many sequences come before `v` because of what they hold in the first `k`
/// places.
pub open spec fn rank_upto(v: Seq<nat>, p: nat, k: nat) -> int
    decreases k,
{
    if k == 0 {
        0
    } else {
        rank_upto(v, p, (k - 1) as nat) + skipped_at(v, p, k - 1)
    }
}

/// The place of `v` among all ascending sequences of its length, in
/// lexicographic order.
pub open spec fn rank(v: Seq<nat>, p: nat) -> int {
    rank_upto(v, p, v.len())
}

/// Sequences that agree so far have the same partial rank.
proof fn lemma_rank_prefix(v: Seq<nat>, w: Seq<nat>, p: nat, k: nat)
    requires
        v.len() == w.len(),
        k <= v.len(),
        forall|i: int| 0 <= i < k ==> v[i] == w[i],
    ensures
        rank_upto(v, p, k) == rank_upto(w, p, k),
    decreases k,
{
    if k > 0 {
        lemma_rank_prefix(v, w, p, (k - 1) as nat);
    }
}

/// What the places from `k` on add to the rank.
pub proof fn lemma_rank_tail(v: Seq<nat>, p: nat, k: nat)
    requires
        is_ascending(v, p),
        k <= v.len(),
        p >= 1,
    ensures
        0 <= rank(v, p) - rank_upto(v, p, k),
        rank(v, p) - rank_upto(v, p, k) < multichoose(
            (p - value_before(v, k as int)) as nat,
            (v.len() - k) as nat,
        ),
    decreases v.len() - k,
{
    if k < v.len() {
        lemma_rank_tail(v, p, k + 1);
        let left = (v.len() - k) as nat;
        let (a, x) = ((p - value_before(v, k as int)) as nat, (p - v[k as int]) as nat);
        if k > 0 {
            assert(v[k - 1] <= v[k as int]);
        }
        lemma_multichoose_grows(x, a, left);
        assert(multichoose(x, left) == multichoose((x - 1) as nat, left) + multichoose(
            x,
            (left - 1) as nat,
        ));
        assert(value_before(v, k as int + 1) == v[k as int]);
    }
}

/// Every place in the list is taken by one sequence only.
pub proof fn lemma_rank_injective(v: Seq<nat>, w: Seq<nat>, p: nat)
    requires
        is_ascending(v, p),
        is_ascending(w, p),
        v.len() == w.len(),
        p >= 1,
        rank(v, p) == rank(w, p),
    ensures
        v == w,
{
    if v != w {
        let m = lemma_first_difference(v, w, 0);
        if v[m] < w[m] {
            lemma_rank_order(v, w, p, m);
        } else {
            lemma_rank_order(w, v, p, m);
        }
    }
}

proof fn lemma_first_difference(v: Seq<nat>, w: Seq<nat>, k: int) -> (m: int)
    requires
        v.len() == w.len(),
        v != w,
        0 <= k <= v.len(),
        forall|i: int| 0 <= i < k ==> v[i] == w[i],
    ensures
        0 <= m < v.len(),
        v[m] != w[m],
        forall|i: int| 0 <= i < m ==> v[i] == w[i],
    decreases v.len() - k,
{
    if k == v.len() {
        assert(v =~= w);
    }
    if v[k] != w[k] {
        k
    } else {
        lemma_first_difference(v, w, k + 1)
    }
}

/// The list is in lexicographic order.
pub proof fn lemma_rank_order(v: Seq<nat>, w: Seq<nat>, p: nat, m: int)
    requires
        is_ascending(v, p),
        is_ascending(w, p),
        v.len() == w.len(),
        0 <= m < v.len(),
        forall|i: int| 0 <= i < m ==> v[i] == w[i],
        v[m] < w[m],
    ensures
        rank(v, p) < rank(w, p),
{
    assert(p >= 1) by {
        assert(v[m] < p);
    }
    lemma_rank_prefix(v, w, p, m as nat);
    lemma_rank_tail(v, p, (m + 1) as nat);
    lemma_rank_tail(w, p, (m + 1) as nat);
    let left = (v.len() - m) as nat;
    let (x, y) = ((p - v[m]) as nat, (p - w[m]) as nat);
    assert(value_before(v, m) == value_before(w, m));
    assert(multichoose(x, left) == multichoose((x - 1) as nat, left) + multichoose(
        x,
        (left - 1) as nat,
    ));
    lemma_multichoose_grows(y, (x - 1) as nat, left);
    assert(value_before(v, m + 1) == v[m]);
}

/// A constant tail adds what its first place adds.
proof fn lemma_constant_tail(v: Seq<nat>, p: nat, m: nat, k: nat)
    requires
        m < k <= v.len(),
        forall|i: int| m <= i < v.len() ==> v[i] == v[m as int],
    ensures
        rank_upto(v, p, k) == rank_upto(v, p, m + 1),
    decreases k,
{
    if k > m + 1 {
        lemma_constant_tail(v, p, m, (k - 1) as nat);
        assert(value_before(v, k - 1) == v[m as int]);
        assert(v[k - 1] == v[m as int]);
    }
}

/// The last sequence of all.
proof fn lemma_rank_last(v: Seq<nat>, p: nat)
    requires
        p >= 1,
        v.len() >= 1,
        forall|i: int| 0 <= i < v.len() ==> #[trigger] v[i] == p - 1,
    ensures
        rank(v, p) == multichoose(p, v.len()) - 1,
{
    assert(v[0] == p - 1);
    lemma_constant_tail(v, p, 0, v.len());
    assert(rank_upto(v, p, 0) == 0);
    lemma_multichoose_one(0, v.len());
}

/// Raising the last value that can be, and starting the ones after it over at
/// the same value, goes one place on.
proof fn lemma_rank_next(v: Seq<nat>, w: Seq<nat>, p: nat, m: int)
    requires
        is_ascending(v, p),
        v.len() == w.len(),
        0 <= m < v.len(),
        v[m] + 1 < p,
        forall|i: int| m < i < v.len() ==> #[trigger] v[i] == p - 1,
        forall|i: int| 0 <= i < m ==> #[trigger] w[i] == v[i],
        forall|i: int| m <= i < v.len() ==> #[trigger] w[i] == v[m] + 1,
    ensures
        is_ascending(w, p),
        rank(w, p) == rank(v, p) + 1,
{
    lemma_rank_prefix(v, w, p, m as nat);
    let left = (v.len() - m) as nat;
    let x = (p - v[m]) as nat;
    assert(w[m] == v[m] + 1);
    assert(value_before(v, m) == value_before(w, m)) by {
        if m > 0 {
            assert(w[m - 1] == v[m - 1]);
        }
    }
    assert(multichoose(x, left) == multichoose((x - 1) as nat, left) + multichoose(
        x,
        (left - 1) as nat,
    ));
    assert forall|i: int| m <= i < w.len() implies w[i] == w[m] by {
        assert(w[i] == v[m] + 1);
    }
    lemma_constant_tail(w, p, m as nat, w.len());
    if m + 1 < v.len() {
        let next = v[m + 1];
        assert forall|i: int| m + 1 <= i < v.len() implies #[trigger] v[i] == next by {
            assert(v[i] == p - 1);
        }
        assert(v[m + 1] == p - 1);
        lemma_constant_tail(v, p, (m + 1) as nat, v.len());
        assert(value_before(v, m + 1) == v[m]);
        assert(rank_upto(v, p, (m + 2) as nat) == rank_upto(v, p, (m + 1) as nat) + skipped_at(
            v,
            p,
            m + 1,
        ));
        lemma_multichoose_one(0, (left - 1) as nat);
    } else {
        lemma_multichoose_one(x, 0);
        lemma_multichoose_one((x - 1) as nat, 0);
    }
    assert forall|i: int, j: int| 0 <= i <= j < w.len() implies w[i] <= w[j] by {
        if i < m {
            assert(w[i] == v[i]);
            assert(v[i] <= v[m]);
            if j < m {
                assert(w[j] == v[j]);
            } else {
                assert(w[j] == v[m] + 1);
            }
        } else {
            assert(w[i] == v[m] + 1 && w[j] == v[m] + 1);
        }
    }
    assert forall|i: int| 0 <= i < w.len() implies #[trigger] w[i] < p by {
        if i < m {
            assert(w[i] == v[i]);
        }
    }
}

/// The first sequence of all.
proof fn lemma_rank_first(v: Seq<nat>, p: nat)
    requires
        forall|i: int| 0 <= i < v.len() ==> #[trigger] v[i] == 0,
    ensures
        rank(v, p) == 0,
{
    if v.len() > 0 {
        assert(v[0] == 0);
        lemma_constant_tail(v, p, 0, v.len());
        assert(rank_upto(v, p, 0) == 0);
    }
}

/// The last value that can be raised.
proof fn lemma_last_below(v: Seq<nat>, p: nat, k: int) -> (m: int)
    requires
        is_ascending(v, p),
        0 <= k <= v.len(),
        forall|i: int| k <= i < v.len() ==> #[trigger] v[i] == p - 1,
        exists|i: int| 0 <= i < v.len() && #[trigger] v[i] != p - 1,
    ensures
        0 <= m < v.len(),
        v[m] + 1 < p,
        forall|i: int| m < i < v.len() ==> #[trigger] v[i] == p - 1,
    decreases k,
{
    assert(k > 0);
    assert(v[k - 1] < p);
    if v[k - 1] == p - 1 {
        lemma_last_below(v, p, k - 1)
    } else {
        k - 1
    }
}

/// Every place in the list is taken.
pub proof fn lemma_place_taken(p: nat, n: nat, place: int) -> (v: Seq<nat>)
    requires
        p >= 1,
        0 <= place < multichoose(p, n),
    ensures
        v.len() == n,
        is_ascending(v, p),
        rank(v, p) == place,
    decreases place,
{
    if place == 0 {
        let v = Seq::new(n, |i: int| 0nat);
        lemma_rank_first(v, p);
        v
    } else {
        let v = lemma_place_taken(p, n, place - 1);
        if n == 0 {
            assert(multichoose(p, 0) == 1);
        }
        if forall|i: int| 0 <= i < v.len() ==> #[trigger] v[i] == p - 1 {
            lemma_rank_last(v, p);
        }
        let m = lemma_last_below(v, p, v.len() as int);
        let w = Seq::new(
            n,
            |i: int|
                if i < m {
                    v[i]
                } else {
                    v[m] + 1
                },
        );
        lemma_rank_next(v, w, p, m);
        w
    }
}

/// The polynomial whose middle bits are zero.
pub open spec fn first_poly(order: nat) -> nat {
    if order <= 1 {
        1
    } else {
        pow2((order - 1) as nat) + 1
    }
}

/// The values of the middle bits.
pub open spec fn values_of(polys: Seq<u16>, order: nat) -> Seq<nat> {
    Seq::new(polys.len(), |i: int| ((polys[i] - first_poly(order)) / 2) as nat)
}

/// Polynomials that belong in the list.
pub open spec fn is_candidate(polys: Seq<u16>, order: nat) -> bool {
    &&& is_ascending(values_of(polys, order), values_per_slot(order))
    &&& forall|i: int|
        0 <= i < polys.len() ==> #[trigger] polys[i] == first_poly(order) + 2 * values_of(
            polys,
            order,
        )[i]
}

/// Goes through the list from some place on.
#[derive(Debug, Clone)]
pub struct PolyIterator {
    poly: Vec<u16>,
    order: u32,
    maxcoeff: u16,
    done: bool,
}

/// The sizes of the polynomials.
pub proof fn lemma_poly_sizes(order: nat)
    requires
        1 <= order <= 15,
    ensures
        first_poly(order) + 2 * (values_per_slot(order) - 1) == pow2(order) - 1,
        2 <= pow2(order) <= 32768,
        1 <= values_per_slot(order) <= 8192,
{
    lemma2_to64();
    lemma_pow2_unfold(order);
    if order < 15 {
        lemma_pow2_strictly_increases(order, 15);
    }
    if order > 1 {
        lemma_pow2_strictly_increases(1, order);
    }
    if order >= 2 {
        lemma_pow2_unfold((order - 1) as nat);
        lemma_pow2_pos((order - 2) as nat);
    }
}

impl PolyIterator {
    pub closed spec fn order(self) -> nat {
        self.order as nat
    }

    pub closed spec fn is_done(self) -> bool {
        self.done
    }

    /// The polynomials that come next.
    pub closed spec fn current(self) -> Seq<u16> {
        self.poly@
    }

    pub closed spec fn wf(self) -> bool {
        &&& 1 <= self.order <= 15
        &&& self.poly@.len() >= 1
        &&& self.maxcoeff == pow2(self.order as nat) - 1
        &&& is_candidate(self.poly@, self.order as nat)
    }

    /// The place of the polynomials that come next.
    pub open spec fn place(self) -> int {
        rank(values_of(self.current(), self.order()), values_per_slot(self.order()))
    }

    /// The number of places.
    pub open spec fn places(self) -> nat {
        multichoose(values_per_slot(self.order()), self.current().len())
    }

    /// Starts at place `index`.
    ///
    /// Fills the slots from left to right. For each it counts how many ways there
    /// are to fill the remaining ones, and moves on to the next larger value as
    /// long as the index lies beyond them.
    #[verifier::rlimit(40)]
    pub fn from_index(rate: u32, order: u32, index: u128) -> (it: PolyIterator)
        requires
            1 <= rate,
            1 <= order <= 15,
            choices_fit(values_per_slot(order as nat), rate as nat),
            index < multichoose(values_per_slot(order as nat), rate as nat),
        ensures
            it.wf(),
            it.order() == order,
            it.current().len() == rate,
            !it.is_done(),
            it.place() == index,
    {
        let ghost o = order as nat;
        let ghost p = values_per_slot(o);
        let ghost n = rate as nat;
        proof {
            lemma_poly_sizes(o);
            lemma2_to64();
        }
        let count: u128 = if order <= 2 {
            1
        } else {
            util::num_states_for_order(order - 2) as u128
        };
        let high: u16 = if order == 1 {
            1
        } else {
            util::num_states_for_order(order - 1) as u16 + 1
        };
        let mut rest: u128 = index;
        let mut values: Vec<u16> = Vec::with_capacity(rate as usize);
        let mut v: u128 = 0;
        let mut slot: u32 = 0;
        let ghost mut chosen: Seq<nat> = Seq::empty();
        let ghost mut passed: int = 0;
        while slot < rate
            invariant
                slot <= rate,
                n == rate,
                p == values_per_slot(o),
                1 <= p <= 8192,
                count == p,
                choices_fit(p, n),
                v < p,
                rest < multichoose((p - v) as nat, (n - slot) as nat),
                values@.len() == slot,
                chosen.len() == slot,
                forall|i: int| 0 <= i < slot ==> #[trigger] values@[i] == chosen[i],
                v == value_before(chosen, slot as int),
                is_ascending(chosen, p),
                passed == rank_so_far(chosen, p, n, slot as nat),
                index == passed + rest,
            decreases rate - slot,
        {
            let remaining: u128 = (rate - slot - 1) as u128;
            let ghost left = (n - slot) as nat;
            let ghost from = v as nat;
            let ghost start = rest;
            proof {
                lemma_choices_fit_less(p, (p - v) as nat, n, remaining as nat);
            }
            let mut block: u128 = combinations_with_repetition(count - v, remaining);
            while rest >= block
                invariant
                    remaining == n - slot - 1,
                    left == remaining + 1,
                    1 <= p <= 8192,
                    count == p,
                    choices_fit(p, n),
                    n <= u32::MAX,
                    from <= v < p,
                    block == multichoose((p - v) as nat, remaining as nat),
                    rest < multichoose((p - v) as nat, left),
                    start - rest == multichoose((p - from) as nat, left) - multichoose(
                        (p - v) as nat,
                        left,
                    ),
                    start >= rest,
                decreases p - v,
            {
                proof {
                    let x = (p - v) as nat;
                    assert(multichoose(x, left) == multichoose((x - 1) as nat, left)
                        + multichoose(x, (left - 1) as nat));
                    if x == 1 {
                        assert(multichoose(0, left) == 0);
                    }
                    lemma_choices_fit_less(p, (x - 1) as nat, n, remaining as nat);
                }
                rest = rest - block;
                v = v + 1;
                block = combinations_with_repetition(count - v, remaining);
            }
            values.push(v as u16);
            proof {
                let old_chosen = chosen;
                chosen = chosen.push(v as nat);
                lemma_rank_so_far(old_chosen, chosen, p, n, slot as nat);
                assert(value_before(chosen, slot as int) == from) by {
                    if slot > 0 {
                        assert(chosen[slot - 1] == old_chosen[slot - 1]);
                    }
                }
                passed = rank_so_far(chosen, p, n, (slot + 1) as nat);
                assert forall|i: int, j: int| 0 <= i <= j < chosen.len() implies chosen[i]
                    <= chosen[j] by {
                    if j == slot && i < slot {
                        assert(chosen[i] == old_chosen[i]);
                        assert(old_chosen[i] <= old_chosen[slot - 1]);
                    }
                }
            }
            slot = slot + 1;
        }
        let mut poly: Vec<u16> = Vec::with_capacity(rate as usize);
        let mut k: usize = 0;
        while k < values.len()
            invariant
                k <= values@.len(),
                values@.len() == chosen.len(),
                1 <= p <= 8192,
                o >= 1,
                high == first_poly(o),
                first_poly(o) + 2 * (p - 1) <= 32767,
                is_ascending(chosen, p),
                forall|i: int| 0 <= i < values@.len() ==> #[trigger] values@[i] == chosen[i],
                poly@.len() == k,
                forall|i: int| 0 <= i < k ==> #[trigger] poly@[i] == first_poly(o) + 2 * chosen[i],
            decreases values@.len() - k,
        {
            assert(chosen[k as int] < p);
            poly.push(2 * values[k] + high);
            k = k + 1;
        }
        proof {
            assert(multichoose((p - v) as nat, 0) == 1);
            lemma_rank_whole(chosen, p);
            assert(values_of(poly@, o) =~= chosen);
            if order > 1 {
                lemma_pow2_unfold(o);
            }
        }
        let all: u32 = util::num_states_for_order(order);
        PolyIterator { poly, order, maxcoeff: (all - 1) as u16, done: false }
    }

    /// Puts the next polynomials into `into`. Returns false once there are no
    /// more.
    pub fn next(&mut self, into: &mut [u16]) -> (found: bool)
        requires
            old(self).wf(),
            !old(self).is_done() ==> old(into)@.len() == old(self).current().len(),
        ensures
            final(self).wf(),
            final(self).order() == old(self).order(),
            final(self).current().len() == old(self).current().len(),
            found == !old(self).is_done(),
            old(self).is_done() ==> *final(self) == *old(self) && final(into)@ == old(into)@,
            !old(self).is_done() ==> {
                &&& final(into)@ == old(self).current()
                &&& is_candidate(final(into)@, old(self).order())
                &&& 0 <= old(self).place() < old(self).places()
                &&& final(self).is_done() == (old(self).place() + 1 == old(self).places())
                &&& !final(self).is_done() ==> final(self).place() == old(self).place() + 1
            },
    {
        if self.done {
            return false;
        }
        let ghost before = *self;
        let ghost o = self.order as nat;
        let ghost p = values_per_slot(o);
        let ghost v = values_of(self.poly@, o);
        let rate: usize = self.poly.len();
        proof {
            lemma_poly_sizes(o);
            lemma_rank_tail(v, p, 0);
            assert(rank_upto(v, p, 0) == 0);
        }
        let mut k: usize = 0;
        while k < rate
            invariant
                k <= rate,
                rate == self.poly@.len(),
                into@.len() == rate,
                forall|i: int| 0 <= i < k ==> #[trigger] into@[i] == self.poly@[i],
            decreases rate - k,
        {
            into[k] = self.poly[k];
            k = k + 1;
        }
        assert(into@ =~= self.poly@);
        // find the last polynomial that is not maxed out yet
        let mut i: usize = rate;
        while i > 0 && self.poly[i - 1] >= self.maxcoeff
            invariant
                i <= rate,
                rate == self.poly@.len(),
                self.maxcoeff == first_poly(o) + 2 * (p - 1),
                is_candidate(self.poly@, o),
                p == values_per_slot(o),
                v == values_of(self.poly@, o),
                forall|j: int| i <= j < rate ==> #[trigger] v[j] == p - 1,
            decreases i,
        {
            proof {
                assert(v[i - 1] < p);
                assert(self.poly@[i - 1] == first_poly(o) + 2 * v[i - 1]);
            }
            i = i - 1;
        }
        if i == 0 {
            self.done = true;
            proof {
                lemma_rank_last(v, p);
            }
        } else {
            let ghost m = i - 1;
            proof {
                assert(v[m] < p);
                assert(self.poly@[m] == first_poly(o) + 2 * v[m]);
            }
            // the lowest bit is always set, so values are 2 apart
            let raised: u16 = self.poly[i - 1] + 2;
            let mut j: usize = i - 1;
            while j < rate
                invariant
                    m <= j <= rate,
                    0 <= m,
                    rate == before.poly@.len(),
                    *self == (PolyIterator { poly: self.poly, ..before }),
                    self.poly@.len() == rate,
                    forall|q: int| 0 <= q < m ==> #[trigger] self.poly@[q] == before.poly@[q],
                    forall|q: int| m <= q < j ==> #[trigger] self.poly@[q] == raised,
                decreases rate - j,
            {
                // start over at the value just set, not below: that would only permute
                // polynomials seen before
                self.poly[j] = raised;
                j = j + 1;
            }
            proof {
                let w = values_of(self.poly@, o);
                assert forall|q: int| 0 <= q < m implies #[trigger] w[q] == v[q] by {
                    assert(self.poly@[q] == before.poly@[q]);
                }
                assert forall|q: int| m <= q < rate implies #[trigger] w[q] == v[m] + 1 by {
                    assert(self.poly@[q] == raised);
                }
                lemma_rank_next(v, w, p, m);
                assert forall|q: int| 0 <= q < self.poly@.len() implies #[trigger] self.poly@[q]
                    == first_poly(o) + 2 * w[q] by {
                    if q < m {
                        assert(before.poly@[q] == first_poly(o) + 2 * v[q]);
                        assert(w[q] == v[q]);
                    } else {
                        assert(w[q] == v[m] + 1);
                    }
                }
                lemma_rank_tail(w, p, 0);
                assert(rank_upto(w, p, 0) == 0);
            }
        }
        true
    }
}

/// The partial rank of the first `k` values of a sequence that will have `n`.
spec fn rank_so_far(v: Seq<nat>, p: nat, n: nat, k: nat) -> int
    decreases k,
{
    if k == 0 {
        0
    } else {
        let left = (n - (k - 1)) as nat;
        rank_so_far(v, p, n, (k - 1) as nat) + (multichoose(
            (p - value_before(v, k - 1)) as nat,
            left,
        ) - multichoose((p - v[k - 1]) as nat, left))
    }
}

proof fn lemma_rank_so_far(v: Seq<nat>, w: Seq<nat>, p: nat, n: nat, k: nat)
    requires
        k <= v.len(),
        k <= w.len(),
        forall|i: int| 0 <= i < k ==> v[i] == w[i],
    ensures
        rank_so_far(v, p, n, k) == rank_so_far(w, p, n, k),
    decreases k,
{
    if k > 0 {
        lemma_rank_so_far(v, w, p, n, (k - 1) as nat);
    }
}

proof fn lemma_rank_whole(v: Seq<nat>, p: nat)
    ensures
        rank_so_far(v, p, v.len(), v.len()) == rank(v, p),
{
    lemma_rank_whole_upto(v, p, v.len());
}

proof fn lemma_rank_whole_upto(v: Seq<nat>, p: nat, k: nat)
    requires
        k <= v.len(),
    ensures
        rank_so_far(v, p, v.len(), k) == rank_upto(v, p, k),
    decreases k,
{
    if k > 0 {
        lemma_rank_whole_upto(v, p, (k - 1) as nat);
    }
}

/// With fewer values and fewer slots the counts fit all the more.
proof fn lemma_choices_fit_less(v: nat, w: nat, s: nat, t: nat)
    requires
        choices_fit(v, s),
        w <= v,
        t <= s,
    ensures
        choices_fit(w, t),
{
    assert forall|i: nat| i < t implies #[trigger] multichoose(w, i) * (w + i) <= u128::MAX by {
        lemma_multichoose_grows(w, v, i);
        assert(multichoose(v, i) * (v + i) <= u128::MAX);
        let (a, b, c, d) = (multichoose(w, i), multichoose(v, i), w + i, v + i);
        assert(a * c <= b * d) by (nonlinear_arith)
            requires
                0 <= a <= b,
                0 <= c <= d,
        ;
    }
}

} // verus!
