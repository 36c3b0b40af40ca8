//! The list of candidates and the bounds by their plain numbers: which polynomials
//! belong in the list and in what order, what a reciprocal holds, and what the bounds
//! on the free distance allow.

use super::bounds::{griesmer_allows, griesmer_length, halved, heller_term};
use super::enumerate::{
    first_poly, is_candidate, lemma_multichoose_ratio, lemma_poly_sizes, lemma_rank_order,
    lemma_rank_tail, multichoose, rank, rank_upto, values_of, values_per_slot,
};
use super::meaning::{graph_for, is_code, lemma_cost_is_output, output_weight};
use super::reciprocal::{lemma_ascending, lemma_reversed_bit, reciprocal_of, reversed};
use super::walk::number;
use super::weight::{input_weight, state_weight};
use crate::convolutional::recovery::total;
use crate::convolutional::trellis::Trellis;
use crate::convolutional::util::{lemma_dot, lemma_pow2_16, lemma_shifted_bit, ones};
use vstd::arithmetic::div_mod::lemma_fundamental_div_mod;
use vstd::arithmetic::power2::{lemma2_to64, lemma_pow2_pos, lemma_pow2_unfold, pow2};
use vstd::prelude::*;

verus! {

/// The polynomials that belong in the list are those with the lowest and the highest of
/// `order` bits set, and none above, in ascending order.
pub proof fn lemma_candidate_shape(polys: Seq<u16>, order: nat)
    requires
        1 <= order <= 15,
    ensures
        is_candidate(polys, order) <==> {
            &&& forall|i: int|
                0 <= i < polys.len() ==> #[trigger] polys[i] % 2 == 1 && pow2((order - 1) as nat)
                    <= polys[i] < pow2(order)
            &&& forall|i: int, j: int| 0 <= i <= j < polys.len() ==> polys[i] <= polys[j]
        },
{
    let v = values_of(polys, order);
    let first = first_poly(order) as int;
    lemma_poly_sizes(order);
    lemma2_to64();
    lemma_pow2_unfold(order);
    lemma_pow2_pos((order - 1) as nat);
    if order >= 2 {
        lemma_pow2_unfold((order - 1) as nat);
    }
    assert(first % 2 == 1);
    if is_candidate(polys, order) {
        assert forall|i: int| 0 <= i < polys.len() implies #[trigger] polys[i] % 2 == 1 && pow2(
            (order - 1) as nat,
        ) <= polys[i] < pow2(order) by {
            assert(polys[i] == first + 2 * v[i]);
            assert(v[i] < values_per_slot(order));
        }
        assert forall|i: int, j: int| 0 <= i <= j < polys.len() implies polys[i] <= polys[j] by {
            assert(polys[i] == first + 2 * v[i]);
            assert(polys[j] == first + 2 * v[j]);
            assert(v[i] <= v[j]);
        }
    }
    if (forall|i: int|
        0 <= i < polys.len() ==> #[trigger] polys[i] % 2 == 1 && pow2((order - 1) as nat)
            <= polys[i] < pow2(order)) && (forall|i: int, j: int|
        0 <= i <= j < polys.len() ==> polys[i] <= polys[j]) {
        assert forall|i: int| 0 <= i < polys.len() implies #[trigger] polys[i] == first + 2 * v[i]
            && v[i] < values_per_slot(order) by {
            assert(polys[i] % 2 == 1);
            assert(polys[i] >= first);
            assert((polys[i] - first) % 2 == 0);
        }
        assert forall|i: int| 0 <= i < v.len() implies #[trigger] v[i] < values_per_slot(order) by {
            assert(polys[i] == first + 2 * v[i]);
        }
        assert forall|i: int, j: int| 0 <= i <= j < v.len() implies v[i] <= v[j] by {
            assert(polys[i] <= polys[j]);
            assert(polys[i] == first + 2 * v[i]);
            assert(polys[j] == first + 2 * v[j]);
        }
    }
}

/// Of two candidates the one with the smaller polynomial in the first place where they
/// differ stands earlier in the list. Places count from 0 to the number of candidates.
pub proof fn lemma_listing_order(a: Seq<u16>, b: Seq<u16>, order: nat, m: int)
    requires
        1 <= order <= 15,
        is_candidate(a, order),
        is_candidate(b, order),
        a.len() == b.len(),
        0 <= m < a.len(),
        forall|i: int| 0 <= i < m ==> a[i] == b[i],
        a[m] < b[m],
    ensures
        0 <= rank(values_of(a, order), values_per_slot(order)) < rank(
            values_of(b, order),
            values_per_slot(order),
        ) < multichoose(values_per_slot(order), a.len()),
{
    let (v, w) = (values_of(a, order), values_of(b, order));
    let p = values_per_slot(order);
    lemma_poly_sizes(order);
    assert forall|i: int| 0 <= i < m implies v[i] == w[i] by {
        assert(a[i] == b[i]);
    }
    assert(a[m] == first_poly(order) + 2 * v[m]);
    assert(b[m] == first_poly(order) + 2 * w[m]);
    lemma_rank_order(v, w, p, m);
    lemma_rank_tail(v, p, 0);
    lemma_rank_tail(w, p, 0);
    assert(rank_upto(v, p, 0) == 0);
    assert(rank_upto(w, p, 0) == 0);
}

/// The number of choices: one for no slots, and for each further slot the count is
/// multiplied by `values + slots` and divided by `slots + 1`.
pub proof fn lemma_next_count(values: nat, slots: nat)
    ensures
        multichoose(values, 0) == 1,
        (slots + 1) * multichoose(values, slots + 1) == (values + slots) * multichoose(
            values,
            slots,
        ),
        values_per_slot(1) == 1,
        values_per_slot(2) == 1,
        values_per_slot(slots + 3) == 2 * values_per_slot(slots + 2),
{
    lemma2_to64();
    lemma_multichoose_ratio(values, slots);
    lemma_pow2_unfold(slots + 1);
}

/// A polynomial read backwards has in each place the bit that the polynomial has in the
/// place counted from the other end.
pub proof fn lemma_backwards(p: u16, order: nat, j: nat)
    requires
        j < order <= 16,
    ensures
        reversed(p as nat, order) < pow2(order) <= 65536,
        ((reversed(p as nat, order) as u16) >> (j as u16)) & 1u16 == (p >> ((order - 1
            - j) as u16)) & 1u16,
{
    lemma_pow2_16(order);
    lemma_reversed_bit(p as nat, order, j);
    lemma_shifted_bit(reversed(p as nat, order) as u16, j);
    lemma_shifted_bit(p, (order - 1 - j) as nat);
}

/// The reciprocal of a code holds its polynomials, each read backwards, in ascending
/// order.
pub proof fn lemma_reciprocal_holds(polys: Seq<u16>, order: nat)
    ensures
        reciprocal_of(polys, order).to_multiset() == Seq::new(
            polys.len(),
            |i: int| reversed(polys[i] as nat, order) as u16,
        ).to_multiset(),
        reciprocal_of(polys, order).len() == polys.len(),
        forall|i: int, j: int|
            0 <= i <= j < polys.len() ==> reciprocal_of(polys, order)[i] <= reciprocal_of(
                polys,
                order,
            )[j],
{
    lemma_ascending(Seq::new(polys.len(), |i: int| reversed(polys[i] as nat, order) as u16));
}

/// The weight of an input's output is the number of set bits that the encoder puts out
/// for the input followed by as many zeros as the register has bits.
pub proof fn lemma_input_weight_is_output(code: Trellis, x: Seq<bool>)
    requires
        is_code(code),
        forall|i: int| 0 <= i < code.polys.len() ==> #[trigger] code.polys[i] < pow2(code.order),
    ensures
        input_weight(code.polys, number(x), code.rate) == output_weight(
            code,
            x + Seq::new(code.order, |i: int| false),
        ),
{
    let g = graph_for(code);
    let w = g.lemma_flushed_walk(x);
    lemma_cost_is_output(code, w);
}

/// The weight of a register is the number of polynomials that tap an odd number of its
/// set bits.
pub proof fn lemma_register_weight(polys: Seq<u16>, reg: u16, n: nat)
    ensures
        state_weight(polys, reg as int, n) == total(
            |j: int| ones((reg & polys[j]) as nat) % 2,
            n,
        ),
    decreases n,
{
    if n > 0 {
        lemma_register_weight(polys, reg, (n - 1) as nat);
        lemma_dot(reg, polys[n - 1]);
    }
}

/// A term of the Heller bound is the largest whole number that does not exceed
/// `rate * 2^k * (order + k - 1) / (2 * (2^k - 1))`.
pub proof fn lemma_heller_quotient(rate: int, order: int, k: nat)
    requires
        k >= 1,
    ensures
        2 * (pow2(k) - 1) * heller_term(rate, order, k) <= rate * pow2(k) * (order + k - 1) < 2 * (
        pow2(k) - 1) * (heller_term(rate, order, k) + 1),
{
    lemma2_to64();
    lemma_pow2_unfold(k);
    lemma_pow2_pos((k - 1) as nat);
    let (a, b) = (rate * pow2(k) * (order + k - 1), 2 * (pow2(k) - 1));
    let q = heller_term(rate, order, k);
    lemma_fundamental_div_mod(a, b);
    assert(b * (q + 1) == b * q + b) by (nonlinear_arith);
}

/// The Griesmer bound allows a distance if for every number of message bits the sum of
/// the distance divided by the powers of two, each rounded up, fits the code.
pub proof fn lemma_griesmer_sum(rate: int, order: int, d: int, i: nat)
    requires
        d >= 1,
        i >= 1,
        griesmer_allows(rate, order, d),
    ensures
        total(|j: int| halved(d, j as nat) as nat, i) <= rate * (order + i - 1),
        pow2(i) * (halved(d, i) - 1) < d <= pow2(i) * halved(d, i),
{
    let f = |j: int| halved(d, j as nat) as nat;
    lemma_length_is_sum(d, i);
    assert(griesmer_length(d, i) <= rate * (order + i - 1));
    lemma_halved_quotient(d, i);
}

/// And it allows no others.
pub proof fn lemma_griesmer_excess(rate: int, order: int, d: int) -> (i: nat)
    requires
        d >= 1,
        !griesmer_allows(rate, order, d),
    ensures
        i >= 1,
        total(|j: int| halved(d, j as nat) as nat, i) > rate * (order + i - 1),
{
    let i = choose|i: nat|
        i >= 1 && !(#[trigger] griesmer_length(d, i) <= rate * (order + i - 1));
    lemma_length_is_sum(d, i);
    i
}

proof fn lemma_halved_quotient(d: int, j: nat)
    requires
        d >= 1,
    ensures
        halved(d, j) >= 0,
        pow2(j) * (halved(d, j) - 1) < d <= pow2(j) * halved(d, j),
{
    lemma_pow2_pos(j);
    let p = pow2(j) as int;
    let q = halved(d, j);
    lemma_fundamental_div_mod(d + p - 1, p);
    assert(p * (q - 1) == p * q - p) by (nonlinear_arith);
    assert(q >= 0) by (nonlinear_arith)
        requires
            p * q > d - 1,
            d >= 1,
            p >= 1,
    ;
}

proof fn lemma_length_is_sum(d: int, i: nat)
    requires
        d >= 1,
    ensures
        griesmer_length(d, i) == total(|j: int| halved(d, j as nat) as nat, i),
    decreases i,
{
    if i > 0 {
        lemma_length_is_sum(d, (i - 1) as nat);
        lemma_halved_quotient(d, (i - 1) as nat);
    }
}

} // verus!
