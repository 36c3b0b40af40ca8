//! Which path each bit of a decoded block is read from, whatever arrived: the decoder
//! looks ahead for at least six times the order, less one step, and then takes what
//! lies closest so far.

use super::bit::bit_at;
use super::channel::{hard_cost, lemma_costs_bounded, soft_cost};
use super::decoder::{decode_result, run_for};
use super::error::DecodeError;
use super::recovery::{
    bits_off, clear_where_last_differing, counts, far, lemma_flag, lemma_path_total,
    lemma_same_window, lemma_tie, lemma_total_equal, off_by, symbols_off,
};
use super::trellis::{bit_value, bounded_cost, lemma_window_bound, window, Trellis};
use super::viterbi::{
    lemma_best_exists, lemma_truth_kept, lemma_window_zero, lemma_zero_window, Run,
};
use vstd::arithmetic::div_mod::lemma_fundamental_div_mod;
use vstd::arithmetic::power2::{lemma_pow2_pos, lemma_pow2_unfold, pow2};
use vstd::prelude::*;

verus! {

/// How many bits are read off at once.
pub open spec fn at_once(order: int) -> int {
    if order <= 8 {
        100 * order
    } else if order <= 10 {
        50 * order
    } else if order <= 12 {
        15 * order
    } else {
        10 * order
    }
}

/// How many steps are seen when bit `r` is read: the bits that are read along with it
/// and before, and `6 * order - 1` steps more, or the whole block.
pub open spec fn seen(order: int, steps: int, r: int) -> int {
    let n = (r / at_once(order) + 1) * at_once(order) + 6 * order - 1;
    if n <= steps {
        n
    } else {
        steps
    }
}

/// The last `order - 1` bits of the block flush the register; those of them that the
/// path reaches are clear.
pub open spec fn may_be_sent(order: int, steps: int, y: Seq<bool>) -> bool {
    forall|i: int| steps - (order - 1) <= i < y.len() ==> !(#[trigger] y[i])
}

/// Of the last `order - 1` bits the first that differ are clear in `y` and set in `z`.
pub open spec fn clear_where_first_differing(order: int, y: Seq<bool>, z: Seq<bool>) -> bool {
    exists|m: int|
        y.len() - (order - 1) <= m < y.len() && !(#[trigger] y[m]) && z[m] && forall|i: int|
            y.len() - (order - 1) <= i < m ==> y[i] == z[i]
}

/// `y` is what bit `r` is read from: of the paths that have been seen so far and may
/// have been sent, it lies closest. Of several that lie as close it is the one whose
/// register comes first, and of those that share a register the one with a clear bit in
/// the last place where it differs from another.
pub open spec fn is_read_from(
    order: int,
    steps: int,
    off: spec_fn(Seq<bool>) -> nat,
    r: int,
    y: Seq<bool>,
) -> bool {
    &&& y.len() == seen(order, steps, r)
    &&& may_be_sent(order, steps, y)
    &&& forall|z: Seq<bool>| #[trigger]
        off(z) >= off(y) || z.len() != y.len() || !may_be_sent(order, steps, z)
    &&& forall|z: Seq<bool>| #[trigger]
        off(z) == off(y) && z.len() == y.len() && may_be_sent(order, steps, z) ==> z == y
            || clear_where_first_differing(order, y, z) || clear_where_last_differing(y, z)
}

/// The smaller register is clear where the two first differ.
proof fn lemma_smaller_window(x: Seq<bool>, y: Seq<bool>, n: nat) -> (m: int)
    requires
        x.len() == y.len() >= n,
        window(x, n) < window(y, n),
    ensures
        x.len() - n <= m < x.len(),
        !x[m],
        y[m],
        forall|i: int| x.len() - n <= i < m ==> x[i] == y[i],
    decreases n,
{
    let (v, w) = (x.drop_last(), y.drop_last());
    let k = (n - 1) as nat;
    assert(window(x, n) == 2 * window(v, k) + bit_value(x.last()));
    assert(window(y, n) == 2 * window(w, k) + bit_value(y.last()));
    if window(v, k) < window(w, k) {
        let m = lemma_smaller_window(v, w, k);
        assert forall|i: int| x.len() - n <= i < m implies x[i] == y[i] by {
            assert(v[i] == w[i]);
        }
        assert(v[m] == x[m] && w[m] == y[m]);
        m
    } else {
        lemma_same_window(v, w, k);
        assert forall|i: int| x.len() - n <= i < x.len() - 1 implies x[i] == y[i] by {
            assert(v[i] == w[i]);
        }
        x.len() - 1
    }
}

/// A register that is a multiple of a power of two has clear newest bits.
proof fn lemma_multiple_clear(x: Seq<bool>, n: nat, k: nat)
    requires
        k <= n,
        window(x, n) % (pow2(k) as int) == 0,
    ensures
        forall|i: int| 0 <= i < x.len() && x.len() - k <= i ==> !(#[trigger] x[i]),
    decreases k,
{
    if k > 0 && x.len() > 0 {
        let y = x.drop_last();
        let (w, p) = (window(y, (n - 1) as nat), pow2((k - 1) as nat) as int);
        lemma_pow2_unfold(k);
        lemma_pow2_pos((k - 1) as nat);
        lemma_window_bound(y, (n - 1) as nat);
        let all = window(x, n);
        assert(all == 2 * w + bit_value(x.last()));
        lemma_fundamental_div_mod(all, 2 * p);
        let q = all / (2 * p);
        assert((2 * p) * q == 2 * (p * q)) by (nonlinear_arith);
        assert(!x.last());
        assert(w == p * q);
        assert(q * p == p * q) by (nonlinear_arith);
        vstd::arithmetic::div_mod::lemma_mod_multiples_basic(q, p);
        lemma_multiple_clear(y, (n - 1) as nat, (k - 1) as nat);
        assert forall|i: int| 0 <= i < x.len() && x.len() - k <= i implies !(#[trigger] x[i]) by {
            if i < x.len() - 1 {
                assert(y[i] == x[i]);
            }
        }
    }
}

/// The state of a path that may have been sent is among those that are looked at.
proof fn lemma_may_be_kept(run: Run, z: Seq<bool>)
    requires
        run.valid(),
        run.head() < z.len() <= run.total,
        may_be_sent(run.code.order as int, run.total as int, z),
    ensures
        run.kept(z.len() - 1, run.code.state(z)),
{
    let x = z + Seq::new((run.total - z.len()) as nat, |i: int| false);
    assert forall|i: int| run.rows() <= i < run.total implies !(#[trigger] x[i]) by {
        if i < z.len() {
            assert(!z[i]);
        }
    }
    assert(x.take(z.len() as int) =~= z);
    lemma_truth_kept(run, x, z.len() as int);
}

/// What bit `r` is read from, counted in costs.
pub proof fn lemma_read_from(
    code: Trellis,
    cost: spec_fn(int, bool) -> nat,
    bits: int,
    off: spec_fn(Seq<bool>) -> nat,
    r: int,
) -> (y: Seq<bool>)
    requires
        code.valid(),
        code.order >= 4,
        bounded_cost(cost),
        bits / (code.rate as int) >= 2 * code.order - 1,
        0 <= r < bits / (code.rate as int) - (code.order - 1),
        forall|z: Seq<bool>| off_by(code, cost, z) == #[trigger] off(z),
    ensures
        is_read_from(code.order as int, bits / (code.rate as int), off, r, y),
        run_for(code, cost, bits).decoded_bit(r) == y[r],
{
    let run = run_for(code, cost, bits);
    let order = code.order as int;
    let steps = run.total as int;
    let g = run.group();
    let n = run.traceback_for(r);
    let y = run.path_for(r);
    assert(g == at_once(order));
    lemma_fundamental_div_mod(r, g);
    assert((r / g) * g == g * (r / g)) by (nonlinear_arith);
    assert((r / g + 1) * g == (r / g) * g + g) by (nonlinear_arith);
    lemma_pow2_pos(run.head());
    let (t, s) = if n <= run.rows() {
        lemma_best_exists(run, n);
        ((run.head() + n) as nat, run.best(n))
    } else {
        (run.total, 0int)
    };
    assert(y == code.survivor(cost, t, s));
    assert(t == seen(order, steps, r));
    assert(0 <= s < code.num_states());
    code.lemma_survivor(cost, t, s);
    // the newest bits of the path are those of its state
    assert(may_be_sent(order, steps, y)) by {
        if n > run.rows() {
            lemma_window_zero(y, run.head());
        } else if t > run.rows() {
            let k = (t - run.rows()) as nat;
            assert(run.step_at(t - 1) == pow2(k));
            lemma_multiple_clear(y, run.head(), k);
        }
    }
    assert forall|z: Seq<bool>| z.len() == y.len() && may_be_sent(order, steps, z) implies #[trigger] off(
        z,
    ) >= off(y) && (off(z) == off(y) ==> z == y || clear_where_first_differing(order, y, z)
        || clear_where_last_differing(y, z)) by {
        assert(off_by(code, cost, z) == off(z));
        assert(off_by(code, cost, y) == off(y));
        lemma_path_total(code, cost, z, |k: int| cost(k, code.encoded_bit(z, k)));
        lemma_path_total(code, cost, y, |k: int| cost(k, code.encoded_bit(y, k)));
        code.lemma_metric_least(cost, z);
        lemma_may_be_kept(run, z);
        let q = code.state(z);
        if n <= run.rows() {
            assert(code.metric(cost, t, s) <= code.metric(cost, t, q));
        } else {
            lemma_zero_window(z, run.head());
        }
        if off(z) == off(y) {
            if q == s {
                lemma_tie(code, cost, z);
            } else {
                assert(s < q);
                let m = lemma_smaller_window(y, z, run.head());
                assert(!y[m] && z[m]);
            }
        }
    }
    assert forall|z: Seq<bool>| #[trigger]
        off(z) >= off(y) || z.len() != y.len() || !may_be_sent(order, steps, z) by {}
    assert forall|z: Seq<bool>| #[trigger]
        off(z) == off(y) && z.len() == y.len() && may_be_sent(order, steps, z) implies z == y
        || clear_where_first_differing(order, y, z) || clear_where_last_differing(y, z) by {}
    y
}

/// Each bit of a block of soft symbols, of whatever length and whatever arrived, is read
/// from the path that lies closest to the counted symbols seen so far.
pub proof fn lemma_bit_from_symbols(
    code: Trellis,
    symbols: Seq<u8>,
    mask: Option<Seq<u8>>,
    before: Seq<u8>,
    after: Seq<u8>,
    res: Result<usize, DecodeError>,
    r: int,
) -> (y: Seq<bool>)
    requires
        code.valid(),
        code.order >= 4,
        symbols.len() <= usize::MAX,
        decode_result(
            code,
            soft_cost(symbols, mask),
            symbols.len() as usize,
            true,
            before,
            after,
            res,
        ),
        res is Ok,
        0 <= r < 8 * res->Ok_0,
    ensures
        is_read_from(
            code.order as int,
            symbols.len() as int / (code.rate as int),
            |z: Seq<bool>| symbols_off(code, symbols, mask, z),
            r,
            y,
        ),
        ((after[r / 8] >> ((7 - r % 8) as u8)) & 1u8 == 1u8) == y[r],
{
    let cost = soft_cost(symbols, mask);
    let off = |z: Seq<bool>| symbols_off(code, symbols, mask, z);
    lemma_costs_bounded(symbols, mask);
    assert forall|z: Seq<bool>| off_by(code, cost, z) == #[trigger] off(z) by {
        let f = |k: int| cost(k, code.encoded_bit(z, k));
        let g = |k: int|
            if counts(mask, k) && symbols[k] != 128 {
                far(symbols[k], code.encoded_bit(z, k))
            } else {
                0nat
            };
        assert forall|k: int| 0 <= k < z.len() * code.rate implies #[trigger] f(k) == g(k) by {
            lemma_flag(mask, k);
        }
        lemma_total_equal(f, g, z.len() * code.rate);
    }
    let y = lemma_read_from(code, cost, symbols.len() as int, off, r);
    assert(bit_at(after, r) == y[r]);
    y
}

/// Each bit of a block of hard bits is read from the path that differs from what
/// arrived in the fewest counted bits seen so far.
pub proof fn lemma_bit_from_bits(
    code: Trellis,
    block: Seq<u8>,
    num_encoded_bits: usize,
    mask: Option<Seq<u8>>,
    before: Seq<u8>,
    after: Seq<u8>,
    res: Result<usize, DecodeError>,
    r: int,
) -> (y: Seq<bool>)
    requires
        code.valid(),
        code.order >= 4,
        decode_result(
            code,
            hard_cost(block, mask),
            num_encoded_bits,
            true,
            before,
            after,
            res,
        ),
        res is Ok,
        0 <= r < 8 * res->Ok_0,
    ensures
        is_read_from(
            code.order as int,
            num_encoded_bits as int / (code.rate as int),
            |z: Seq<bool>| bits_off(code, block, mask, z),
            r,
            y,
        ),
        ((after[r / 8] >> ((7 - r % 8) as u8)) & 1u8 == 1u8) == y[r],
{
    let cost = hard_cost(block, mask);
    let off = |z: Seq<bool>| bits_off(code, block, mask, z);
    lemma_costs_bounded(block, mask);
    assert forall|z: Seq<bool>| off_by(code, cost, z) == #[trigger] off(z) by {
        let f = |k: int| cost(k, code.encoded_bit(z, k));
        let g = |k: int|
            if counts(mask, k) && ((block[k / 8] >> ((7 - k % 8) as u8)) & 1u8 == 1u8)
                != code.encoded_bit(z, k) {
                1nat
            } else {
                0nat
            };
        assert forall|k: int| 0 <= k < z.len() * code.rate implies #[trigger] f(k) == g(k) by {
            lemma_flag(mask, k);
        }
        lemma_total_equal(f, g, z.len() * code.rate);
    }
    let y = lemma_read_from(code, cost, num_encoded_bits as int, off, r);
    assert(bit_at(after, r) == y[r]);
    y
}

} // verus!
