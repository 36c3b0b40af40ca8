//! What a decode gives back, in terms of the message, the symbols or bits that
//! arrived, and the mask: a message comes back wherever what arrived lies closer to
//! it than to its rivals, and a short block decodes to what lies closest.
//!
//! Distances are counted here symbol by symbol: a bit that was received as hard is
//! off by one or not at all, and a symbol is as far from a set bit as from 255 and
//! as far from a clear one as from 0. Bits that the mask flags are not counted, and
//! neither are symbols of 128.

use super::bit::{bit_at, bits_of};
use super::channel::{hard_cost, lemma_costs_bounded, soft_cost};
use super::decoder::{decode_result, run_for};
use super::encoder::is_encoded;
use super::error::DecodeError;
use super::guard::{cost_of_bits, lemma_path_cost_of_bits};
use super::laws::{
    held_by, is_rival, lemma_encoded_total, lemma_message_corrected, lemma_short_block_is_optimal,
    lost_by, seen_for,
};
use super::puncture::{is_depunctured, is_depunctured_soft, is_erasure_mask, is_punctured};
use super::trellis::{bit_value, bounded_cost, window, Trellis};
use super::viterbi::{lemma_window_zero, lemma_zero_window};
use vstd::arithmetic::div_mod::lemma_fundamental_div_mod;
use vstd::arithmetic::power2::{lemma_pow2_pos, pow2};
use vstd::prelude::*;

verus! {

/// The sum of the first `n` values.
pub open spec fn total(f: spec_fn(int) -> nat, n: nat) -> nat
    decreases n,
{
    if n == 0 {
        0
    } else {
        total(f, (n - 1) as nat) + f(n - 1)
    }
}

pub proof fn lemma_total_equal(f: spec_fn(int) -> nat, g: spec_fn(int) -> nat, n: nat)
    requires
        forall|k: int| 0 <= k < n ==> #[trigger] f(k) == g(k),
    ensures
        total(f, n) == total(g, n),
    decreases n,
{
    if n > 0 {
        lemma_total_equal(f, g, (n - 1) as nat);
    }
}

proof fn lemma_total_less(f: spec_fn(int) -> nat, g: spec_fn(int) -> nat, n: nat, at: int)
    requires
        forall|k: int| 0 <= k < n ==> #[trigger] f(k) <= g(k),
        at < n ==> f(at) < g(at),
        0 <= at,
    ensures
        total(f, n) <= total(g, n),
        at < n ==> total(f, n) < total(g, n),
    decreases n,
{
    if n > 0 {
        lemma_total_less(f, g, (n - 1) as nat, at);
    }
}

/// Bit `k` is not flagged in the mask: bit `7 - k % 8` of byte `k / 8`, counted
/// from the least significant, is clear.
pub open spec fn counts(mask: Option<Seq<u8>>, k: int) -> bool {
    match mask {
        Some(m) => (m[k / 8] >> ((7 - k % 8) as u8)) & 1u8 == 0u8,
        None => true,
    }
}

/// How far a symbol is from a bit.
pub open spec fn far(symbol: u8, bit: bool) -> nat {
    if bit {
        (255 - symbol) as nat
    } else {
        symbol as nat
    }
}

/// A path that has another value than `x` in place `r`, and that the decoder may
/// have to tell from it: it goes on for six times the order from there, or to the
/// end of the block, where the register is flushed.
pub open spec fn contends(x: Seq<bool>, order: nat, r: int, y: Seq<bool>) -> bool {
    &&& 0 <= r < y.len() <= x.len()
    &&& y[r] != x[r]
    &&& r + 6 * order <= y.len() || (y.len() == x.len() && forall|i: int|
        y.len() - (order - 1) <= i < y.len() ==> !(#[trigger] y[i]))
}

/// What the decoder reads a bit from contends with what was sent.
proof fn lemma_rival_contends(
    code: Trellis,
    cost: spec_fn(int, bool) -> nat,
    steps: nat,
    x: Seq<bool>,
    r: int,
    y: Seq<bool>,
)
    requires
        code.valid(),
        code.order >= 4,
        x.len() == steps >= 2 * code.order - 1,
        is_rival(super::viterbi::Run { code, cost, total: steps }, x, r, y),
        0 <= r < steps - (code.order - 1),
    ensures
        contends(x, code.order, r, y),
{
    let run = super::viterbi::Run { code, cost, total: steps };
    let g = run.group();
    lemma_fundamental_div_mod(r, g);
    assert((r / g) * g == g * (r / g)) by (nonlinear_arith);
    assert(seen_for(run, r) <= run.total);
    if y.len() == run.total {
        lemma_window_zero(y, run.head());
    }
}

/// Costs summed along a path are a sum over its encoded bits.
pub proof fn lemma_path_total(
    code: Trellis,
    cost: spec_fn(int, bool) -> nat,
    y: Seq<bool>,
    f: spec_fn(int) -> nat,
)
    requires
        code.valid(),
        forall|k: int|
            0 <= k < y.len() * code.rate ==> #[trigger] f(k) == cost(k, code.encoded_bit(y, k)),
    ensures
        code.path_cost(cost, y) == total(f, y.len() * code.rate),
{
    assert(y.take(y.len() as int) =~= y);
    lemma_path_cost_of_bits(code, cost, y, y.len() as int);
    lemma_bits_total(code, cost, y, f, y.len() * code.rate);
}

proof fn lemma_bits_total(
    code: Trellis,
    cost: spec_fn(int, bool) -> nat,
    y: Seq<bool>,
    f: spec_fn(int) -> nat,
    n: nat,
)
    requires
        forall|k: int| 0 <= k < n ==> #[trigger] f(k) == cost(k, code.encoded_bit(y, k)),
    ensures
        cost_of_bits(code, cost, y, n) == total(f, n),
    decreases n,
{
    if n > 0 {
        lemma_bits_total(code, cost, y, f, (n - 1) as nat);
        assert(f(n - 1) == cost(n - 1, code.encoded_bit(y, n - 1)));
    }
}

/// How far the counted symbols are from what `z` puts out, where `x` and `y` put
/// out something different.
pub open spec fn soft_distance(
    code: Trellis,
    symbols: Seq<u8>,
    mask: Option<Seq<u8>>,
    x: Seq<bool>,
    y: Seq<bool>,
    z: Seq<bool>,
) -> nat {
    total(
        |k: int|
            if counts(mask, k) && symbols[k] != 128 && code.encoded_bit(x, k) != code.encoded_bit(
                y,
                k,
            ) {
                far(symbols[k], code.encoded_bit(z, k))
            } else {
                0nat
            },
        y.len() * code.rate,
    )
}

/// A message of any length comes back from soft symbols, with or without a mask, if
/// for each path that contends with it the counted symbols where the two differ lie
/// closer to the message's encoding than to the other's, taken together.
pub proof fn lemma_soft_recovered(
    code: Trellis,
    msg: Seq<u8>,
    symbols: Seq<u8>,
    mask: Option<Seq<u8>>,
    before: Seq<u8>,
    after: Seq<u8>,
    res: Result<usize, DecodeError>,
)
    requires
        code.valid(),
        code.order >= 4,
        8 * msg.len() + 2 >= code.order,
        symbols.len() == code.rate * (8 * msg.len() + code.order + 1),
        symbols.len() <= usize::MAX,
        before.len() >= msg.len(),
        decode_result(
            code,
            soft_cost(symbols, mask),
            symbols.len() as usize,
            true,
            before,
            after,
            res,
        ),
        forall|r: int, y: Seq<bool>|
            r < 8 * msg.len() && #[trigger] contends(
                code.flushed(bits_of(msg)),
                code.order,
                r,
                y,
            ) ==> soft_distance(
                code,
                symbols,
                mask,
                code.flushed(bits_of(msg)),
                y,
                code.flushed(bits_of(msg)),
            ) < soft_distance(code, symbols, mask, code.flushed(bits_of(msg)), y, y),
    ensures
        res matches Ok(n) && n == msg.len(),
        after.take(msg.len() as int) == msg,
        after.skip(msg.len() as int) == before.skip(msg.len() as int),
{
    let cost = soft_cost(symbols, mask);
    let x = code.flushed(bits_of(msg));
    let run = run_for(code, cost, symbols.len() as int);
    lemma_costs_bounded(symbols, mask);
    lemma_encoded_total(code, msg.len() as int);
    assert forall|r: int, y: Seq<bool>| 0 <= r < 8 * msg.len() && #[trigger] is_rival(
        run,
        x,
        r,
        y,
    ) implies code.path_cost(lost_by(code, x, cost), y) < code.path_cost(
        held_by(code, x, cost),
        y,
    ) by {
        lemma_rival_contends(code, cost, run.total, x, r, y);
        let n = y.len() * code.rate;
        let f = |k: int|
            if counts(mask, k) && symbols[k] != 128 && code.encoded_bit(x, k) != code.encoded_bit(
                y,
                k,
            ) {
                far(symbols[k], code.encoded_bit(x, k))
            } else {
                0nat
            };
        let g = |k: int|
            if counts(mask, k) && symbols[k] != 128 && code.encoded_bit(x, k) != code.encoded_bit(
                y,
                k,
            ) {
                far(symbols[k], code.encoded_bit(y, k))
            } else {
                0nat
            };
        assert forall|k: int| 0 <= k < n implies #[trigger] f(k) == lost_by(code, x, cost)(
            k,
            code.encoded_bit(y, k),
        ) by {
            lemma_flag(mask, k);
        }
        assert forall|k: int| 0 <= k < n implies #[trigger] g(k) == held_by(code, x, cost)(
            k,
            code.encoded_bit(y, k),
        ) by {
            lemma_flag(mask, k);
        }
        lemma_path_total(code, lost_by(code, x, cost), y, f);
        lemma_path_total(code, held_by(code, x, cost), y, g);
        assert(soft_distance(code, symbols, mask, x, y, x) == total(f, n));
        assert(soft_distance(code, symbols, mask, x, y, y) == total(g, n));
    }
    lemma_message_corrected(
        code,
        cost,
        msg,
        symbols.len() as usize,
        before,
        after,
        res,
    );
}

/// A bit is either clear or set.
pub proof fn lemma_flag(mask: Option<Seq<u8>>, k: int)
    ensures
        counts(mask, k) == !super::channel::is_erased(mask, k),
{
    if mask is Some {
        let b = mask->0[k / 8];
        let c = (7 - k % 8) as u8;
        assert((b >> c) & 1u8 == 0u8 || (b >> c) & 1u8 == 1u8) by (bit_vector);
    }
}

/// A message of any length comes back from soft symbols that all lie on its side of
/// 128, however far, with or without a mask: a symbol above 128 speaks for a set bit
/// and one below for a clear one. Every path that contends with it has to differ
/// from it in a bit that is not flagged and whose symbol is not 128.
pub proof fn lemma_right_side_recovered(
    code: Trellis,
    msg: Seq<u8>,
    symbols: Seq<u8>,
    mask: Option<Seq<u8>>,
    before: Seq<u8>,
    after: Seq<u8>,
    res: Result<usize, DecodeError>,
)
    requires
        code.valid(),
        code.order >= 4,
        8 * msg.len() + 2 >= code.order,
        symbols.len() == code.rate * (8 * msg.len() + code.order + 1),
        symbols.len() <= usize::MAX,
        before.len() >= msg.len(),
        decode_result(
            code,
            soft_cost(symbols, mask),
            symbols.len() as usize,
            true,
            before,
            after,
            res,
        ),
        forall|k: int|
            0 <= k < symbols.len() && counts(mask, k) ==> if code.encoded_bit(
                code.flushed(bits_of(msg)),
                k,
            ) {
                #[trigger] symbols[k] >= 128
            } else {
                symbols[k] <= 128
            },
        forall|r: int, y: Seq<bool>|
            r < 8 * msg.len() && #[trigger] contends(
                code.flushed(bits_of(msg)),
                code.order,
                r,
                y,
            ) ==> exists|k: int|
                0 <= k < y.len() * code.rate && counts(mask, k) && #[trigger] symbols[k] != 128
                    && code.encoded_bit(y, k) != code.encoded_bit(code.flushed(bits_of(msg)), k),
    ensures
        res matches Ok(n) && n == msg.len(),
        after.take(msg.len() as int) == msg,
        after.skip(msg.len() as int) == before.skip(msg.len() as int),
{
    let x = code.flushed(bits_of(msg));
    assert forall|r: int, y: Seq<bool>| r < 8 * msg.len() && #[trigger] contends(
        x,
        code.order,
        r,
        y,
    ) implies soft_distance(code, symbols, mask, x, y, x) < soft_distance(
        code,
        symbols,
        mask,
        x,
        y,
        y,
    ) by {
        let at = choose|k: int|
            0 <= k < y.len() * code.rate && counts(mask, k) && #[trigger] symbols[k] != 128
                && code.encoded_bit(y, k) != code.encoded_bit(x, k);
        let n = y.len() * code.rate;
        assert(n <= symbols.len()) by (nonlinear_arith)
            requires
                n == y.len() * code.rate,
                y.len() <= x.len(),
                x.len() == 8 * msg.len() + code.order + 1,
                symbols.len() == code.rate * (8 * msg.len() + code.order + 1),
        ;
        let f = |k: int|
            if counts(mask, k) && symbols[k] != 128 && code.encoded_bit(x, k) != code.encoded_bit(
                y,
                k,
            ) {
                far(symbols[k], code.encoded_bit(x, k))
            } else {
                0nat
            };
        let g = |k: int|
            if counts(mask, k) && symbols[k] != 128 && code.encoded_bit(x, k) != code.encoded_bit(
                y,
                k,
            ) {
                far(symbols[k], code.encoded_bit(y, k))
            } else {
                0nat
            };
        assert forall|k: int| 0 <= k < n implies #[trigger] f(k) <= g(k) by {}
        lemma_total_less(f, g, n, at);
    }
    lemma_soft_recovered(code, msg, symbols, mask, before, after, res);
}

/// The number of counted bits in which `x` and `y` put out something different.
pub open spec fn differing(code: Trellis, mask: Option<Seq<u8>>, x: Seq<bool>, y: Seq<bool>) -> nat {
    total(
        |k: int|
            if counts(mask, k) && code.encoded_bit(x, k) != code.encoded_bit(y, k) {
                1nat
            } else {
                0nat
            },
        y.len() * code.rate,
    )
}

/// The number of those that were received otherwise than `x` puts them out.
pub open spec fn differing_wrong(
    code: Trellis,
    block: Seq<u8>,
    mask: Option<Seq<u8>>,
    x: Seq<bool>,
    y: Seq<bool>,
) -> nat {
    total(
        |k: int|
            if counts(mask, k) && code.encoded_bit(x, k) != code.encoded_bit(y, k) && ((block[k / 8]
                >> ((7 - k % 8) as u8)) & 1u8 == 1u8) != code.encoded_bit(x, k) {
                1nat
            } else {
                0nat
            },
        y.len() * code.rate,
    )
}

/// A message of any length comes back from hard bits, with or without a mask, if
/// each path that contends with it differs from it in more than twice as many
/// counted bits as were received wrong among those.
pub proof fn lemma_hard_recovered(
    code: Trellis,
    msg: Seq<u8>,
    block: Seq<u8>,
    num_encoded_bits: usize,
    mask: Option<Seq<u8>>,
    before: Seq<u8>,
    after: Seq<u8>,
    res: Result<usize, DecodeError>,
)
    requires
        code.valid(),
        code.order >= 4,
        8 * msg.len() + 2 >= code.order,
        num_encoded_bits == code.rate * (8 * msg.len() + code.order + 1),
        before.len() >= msg.len(),
        decode_result(
            code,
            hard_cost(block, mask),
            num_encoded_bits,
            true,
            before,
            after,
            res,
        ),
        forall|r: int, y: Seq<bool>|
            r < 8 * msg.len() && #[trigger] contends(
                code.flushed(bits_of(msg)),
                code.order,
                r,
                y,
            ) ==> differing(code, mask, code.flushed(bits_of(msg)), y) > 2 * differing_wrong(
                code,
                block,
                mask,
                code.flushed(bits_of(msg)),
                y,
            ),
    ensures
        res matches Ok(n) && n == msg.len(),
        after.take(msg.len() as int) == msg,
        after.skip(msg.len() as int) == before.skip(msg.len() as int),
{
    let cost = hard_cost(block, mask);
    let x = code.flushed(bits_of(msg));
    let run = run_for(code, cost, num_encoded_bits as int);
    lemma_costs_bounded(block, mask);
    lemma_encoded_total(code, msg.len() as int);
    assert forall|r: int, y: Seq<bool>| 0 <= r < 8 * msg.len() && #[trigger] is_rival(
        run,
        x,
        r,
        y,
    ) implies code.path_cost(lost_by(code, x, cost), y) < code.path_cost(
        held_by(code, x, cost),
        y,
    ) by {
        lemma_rival_contends(code, cost, run.total, x, r, y);
        let n = y.len() * code.rate;
        let all = |k: int|
            if counts(mask, k) && code.encoded_bit(x, k) != code.encoded_bit(y, k) {
                1nat
            } else {
                0nat
            };
        let wrong = |k: int|
            if counts(mask, k) && code.encoded_bit(x, k) != code.encoded_bit(y, k) && ((block[k / 8]
                >> ((7 - k % 8) as u8)) & 1u8 == 1u8) != code.encoded_bit(x, k) {
                1nat
            } else {
                0nat
            };
        let right = |k: int| (all(k) - wrong(k)) as nat;
        assert forall|k: int| 0 <= k < n implies #[trigger] wrong(k) == lost_by(code, x, cost)(
            k,
            code.encoded_bit(y, k),
        ) by {
            lemma_flag(mask, k);
        }
        assert forall|k: int| 0 <= k < n implies #[trigger] right(k) == held_by(code, x, cost)(
            k,
            code.encoded_bit(y, k),
        ) by {
            lemma_flag(mask, k);
        }
        lemma_path_total(code, lost_by(code, x, cost), y, wrong);
        lemma_path_total(code, held_by(code, x, cost), y, right);
        lemma_total_split(all, wrong, right, n);
        assert(differing(code, mask, x, y) == total(all, n));
        assert(differing_wrong(code, block, mask, x, y) == total(wrong, n));
    }
    lemma_message_corrected(code, cost, msg, num_encoded_bits, before, after, res);
}

proof fn lemma_total_split(
    all: spec_fn(int) -> nat,
    part: spec_fn(int) -> nat,
    rest: spec_fn(int) -> nat,
    n: nat,
)
    requires
        forall|k: int| 0 <= k < n ==> #[trigger] all(k) == part(k) + rest(k),
    ensures
        total(all, n) == total(part, n) + total(rest, n),
    decreases n,
{
    if n > 0 {
        lemma_total_split(all, part, rest, (n - 1) as nat);
        assert(all(n - 1) == part(n - 1) + rest(n - 1));
    }
}

/// A message of any length comes back from hard bits that were received as sent,
/// with or without a mask, if each path that contends with it differs from it in a
/// counted bit. What was received in the flagged places does not matter.
pub proof fn lemma_clean_bits_recovered(
    code: Trellis,
    msg: Seq<u8>,
    block: Seq<u8>,
    num_encoded_bits: usize,
    mask: Option<Seq<u8>>,
    before: Seq<u8>,
    after: Seq<u8>,
    res: Result<usize, DecodeError>,
)
    requires
        code.valid(),
        code.order >= 4,
        8 * msg.len() + 2 >= code.order,
        num_encoded_bits == code.rate * (8 * msg.len() + code.order + 1),
        before.len() >= msg.len(),
        decode_result(
            code,
            hard_cost(block, mask),
            num_encoded_bits,
            true,
            before,
            after,
            res,
        ),
        forall|k: int|
            0 <= k < num_encoded_bits && counts(mask, k) ==> ((block[k / 8] >> ((7 - k
                % 8) as u8)) & 1u8 == 1u8) == #[trigger] code.encoded_bit(
                code.flushed(bits_of(msg)),
                k,
            ),
        forall|r: int, y: Seq<bool>|
            r < 8 * msg.len() && #[trigger] contends(
                code.flushed(bits_of(msg)),
                code.order,
                r,
                y,
            ) ==> exists|k: int|
                0 <= k < y.len() * code.rate && counts(mask, k) && #[trigger] code.encoded_bit(y, k)
                    != code.encoded_bit(code.flushed(bits_of(msg)), k),
    ensures
        res matches Ok(n) && n == msg.len(),
        after.take(msg.len() as int) == msg,
        after.skip(msg.len() as int) == before.skip(msg.len() as int),
{
    let x = code.flushed(bits_of(msg));
    assert forall|r: int, y: Seq<bool>| r < 8 * msg.len() && #[trigger] contends(
        x,
        code.order,
        r,
        y,
    ) implies differing(code, mask, x, y) > 2 * differing_wrong(code, block, mask, x, y) by {
        let at = choose|k: int|
            0 <= k < y.len() * code.rate && counts(mask, k) && #[trigger] code.encoded_bit(y, k)
                != code.encoded_bit(x, k);
        let n = y.len() * code.rate;
        assert(n <= num_encoded_bits) by (nonlinear_arith)
            requires
                n == y.len() * code.rate,
                y.len() <= x.len(),
                x.len() == 8 * msg.len() + code.order + 1,
                num_encoded_bits == code.rate * (8 * msg.len() + code.order + 1),
        ;
        let all = |k: int|
            if counts(mask, k) && code.encoded_bit(x, k) != code.encoded_bit(y, k) {
                1nat
            } else {
                0nat
            };
        let wrong = |k: int|
            if counts(mask, k) && code.encoded_bit(x, k) != code.encoded_bit(y, k) && ((block[k / 8]
                >> ((7 - k % 8) as u8)) & 1u8 == 1u8) != code.encoded_bit(x, k) {
                1nat
            } else {
                0nat
            };
        let none = |k: int| 0nat;
        assert forall|k: int| 0 <= k < n implies #[trigger] wrong(k) == none(k) by {
            assert(code.encoded_bit(x, k) == code.encoded_bit(x, k));
        }
        assert forall|k: int| 0 <= k < n implies #[trigger] none(k) <= all(k) by {}
        assert(all(at) == 1);
        lemma_total_equal(wrong, none, n);
        lemma_total_zero(none, n);
        lemma_total_less(none, all, n, at);
        assert(differing(code, mask, x, y) == total(all, n));
        assert(differing_wrong(code, block, mask, x, y) == total(wrong, n));
    }
    lemma_hard_recovered(code, msg, block, num_encoded_bits, mask, before, after, res);
}

proof fn lemma_total_zero(f: spec_fn(int) -> nat, n: nat)
    requires
        forall|k: int| 0 <= k < n ==> #[trigger] f(k) == 0,
    ensures
        total(f, n) == 0,
    decreases n,
{
    if n > 0 {
        lemma_total_zero(f, (n - 1) as nat);
    }
}

/// A message of any length that is encoded, punctured by a pattern, depunctured by
/// the same pattern and decoded with the mask comes back, if each path that contends
/// with it differs from it in a bit that the pattern keeps.
pub proof fn lemma_punctured_recovered(
    code: Trellis,
    keep: Seq<bool>,
    msg: Seq<u8>,
    block: Seq<u8>,
    sent: Seq<u8>,
    expanded: Seq<u8>,
    mask: Seq<u8>,
    num_encoded_bits: usize,
    before: Seq<u8>,
    after: Seq<u8>,
    res: Result<usize, DecodeError>,
)
    requires
        code.valid(),
        code.order >= 4,
        8 * msg.len() + 2 >= code.order,
        num_encoded_bits == code.rate * (8 * msg.len() + code.order + 1),
        is_encoded(code, msg, block),
        keep.len() > 0,
        is_punctured(keep, block, num_encoded_bits as nat, sent),
        is_depunctured(keep, sent, num_encoded_bits as nat, expanded),
        is_erasure_mask(keep, num_encoded_bits as nat, mask),
        before.len() >= msg.len(),
        decode_result(
            code,
            hard_cost(expanded, Some(mask)),
            num_encoded_bits,
            true,
            before,
            after,
            res,
        ),
        forall|r: int, y: Seq<bool>|
            r < 8 * msg.len() && #[trigger] contends(
                code.flushed(bits_of(msg)),
                code.order,
                r,
                y,
            ) ==> exists|k: int|
                0 <= k < y.len() * code.rate && keep[k % (keep.len() as int)]
                    && #[trigger] code.encoded_bit(y, k) != code.encoded_bit(
                    code.flushed(bits_of(msg)),
                    k,
                ),
    ensures
        res matches Ok(n) && n == msg.len(),
        after.take(msg.len() as int) == msg,
        after.skip(msg.len() as int) == before.skip(msg.len() as int),
{
    let x = code.flushed(bits_of(msg));
    let bits = num_encoded_bits as int;
    assert forall|k: int| 0 <= k < bits implies counts(Some(mask), k) == keep[#[trigger] (k % (
    keep.len() as int))] && (counts(Some(mask), k) ==> bit_at(expanded, k) == code.encoded_bit(
        x,
        k,
    )) by {
        lemma_flag(Some(mask), k);
        assert(bit_at(mask, k) == !super::puncture::keeps_bit(keep, k));
        assert(bit_at(expanded, k) == (super::puncture::keeps_bit(keep, k) && bit_at(
            sent,
            super::puncture::kept_count(keep, k as nat) as int,
        )));
        assert(bit_at(block, k) == code.encoded_bit(x, k));
    }
    assert forall|k: int| 0 <= k < bits && counts(Some(mask), k) implies ((expanded[k / 8] >> ((7
        - k % 8) as u8)) & 1u8 == 1u8) == #[trigger] code.encoded_bit(x, k) by {
        let i = k % (keep.len() as int);
        assert(bit_at(expanded, k) == code.encoded_bit(x, k));
    }
    assert forall|r: int, y: Seq<bool>| r < 8 * msg.len() && #[trigger] contends(
        x,
        code.order,
        r,
        y,
    ) implies exists|k: int|
        0 <= k < y.len() * code.rate && counts(Some(mask), k) && #[trigger] code.encoded_bit(y, k)
            != code.encoded_bit(x, k) by {
        let k = choose|k: int|
            0 <= k < y.len() * code.rate && keep[k % (keep.len() as int)]
                && #[trigger] code.encoded_bit(y, k) != code.encoded_bit(x, k);
        assert(y.len() * code.rate <= bits) by (nonlinear_arith)
            requires
                y.len() <= x.len(),
                x.len() == 8 * msg.len() + code.order + 1,
                bits == code.rate * (8 * msg.len() + code.order + 1),
        ;
        let i = k % (keep.len() as int);
        assert(counts(Some(mask), k) && code.encoded_bit(y, k) != code.encoded_bit(x, k));
    }
    lemma_clean_bits_recovered(
        code,
        msg,
        expanded,
        num_encoded_bits,
        Some(mask),
        before,
        after,
        res,
    );
}

/// The same for soft symbols that arrive for the bits that were sent, each on the
/// right side of 128, however far.
pub proof fn lemma_punctured_soft_recovered(
    code: Trellis,
    keep: Seq<bool>,
    msg: Seq<u8>,
    block: Seq<u8>,
    sent: Seq<u8>,
    arrived: Seq<u8>,
    expanded: Seq<u8>,
    mask: Seq<u8>,
    before: Seq<u8>,
    after: Seq<u8>,
    res: Result<usize, DecodeError>,
)
    requires
        code.valid(),
        code.order >= 4,
        8 * msg.len() + 2 >= code.order,
        expanded.len() == code.rate * (8 * msg.len() + code.order + 1),
        expanded.len() <= usize::MAX,
        is_encoded(code, msg, block),
        keep.len() > 0,
        is_punctured(keep, block, expanded.len(), sent),
        forall|j: int|
            0 <= j < arrived.len() ==> if (sent[j / 8] >> ((7 - j % 8) as u8)) & 1u8 == 1u8 {
                #[trigger] arrived[j] > 128
            } else {
                arrived[j] < 128
            },
        arrived.len() >= super::puncture::kept_count(keep, expanded.len()),
        is_depunctured_soft(keep, arrived, expanded),
        is_erasure_mask(keep, expanded.len(), mask),
        before.len() >= msg.len(),
        decode_result(
            code,
            soft_cost(expanded, Some(mask)),
            expanded.len() as usize,
            true,
            before,
            after,
            res,
        ),
        forall|r: int, y: Seq<bool>|
            r < 8 * msg.len() && #[trigger] contends(
                code.flushed(bits_of(msg)),
                code.order,
                r,
                y,
            ) ==> exists|k: int|
                0 <= k < y.len() * code.rate && keep[k % (keep.len() as int)]
                    && #[trigger] code.encoded_bit(y, k) != code.encoded_bit(
                    code.flushed(bits_of(msg)),
                    k,
                ),
    ensures
        res matches Ok(n) && n == msg.len(),
        after.take(msg.len() as int) == msg,
        after.skip(msg.len() as int) == before.skip(msg.len() as int),
{
    let x = code.flushed(bits_of(msg));
    let bits = expanded.len() as int;
    assert forall|k: int| 0 <= k < bits implies counts(Some(mask), k) == keep[k % (
    keep.len() as int)] && (counts(Some(mask), k) ==> if code.encoded_bit(x, k) {
        #[trigger] expanded[k] > 128
    } else {
        expanded[k] < 128
    }) by {
        lemma_flag(Some(mask), k);
        assert(bit_at(mask, k) == !super::puncture::keeps_bit(keep, k));
        if super::puncture::keeps_bit(keep, k) {
            let j = super::puncture::kept_count(keep, k as nat) as int;
            super::puncture::lemma_kept_count(keep, (k + 1) as nat, expanded.len());
            assert(bit_at(sent, j) == bit_at(block, k));
            assert(expanded[k] == arrived[j]);
            assert(bit_at(block, k) == code.encoded_bit(x, k));
        }
    }
    assert forall|r: int, y: Seq<bool>| r < 8 * msg.len() && #[trigger] contends(
        x,
        code.order,
        r,
        y,
    ) implies exists|k: int|
        0 <= k < y.len() * code.rate && counts(Some(mask), k) && #[trigger] expanded[k] != 128
            && code.encoded_bit(y, k) != code.encoded_bit(x, k) by {
        let k = choose|k: int|
            0 <= k < y.len() * code.rate && keep[k % (keep.len() as int)]
                && #[trigger] code.encoded_bit(y, k) != code.encoded_bit(x, k);
        assert(y.len() * code.rate <= bits) by (nonlinear_arith)
            requires
                y.len() <= x.len(),
                x.len() == 8 * msg.len() + code.order + 1,
                bits == code.rate * (8 * msg.len() + code.order + 1),
        ;
        assert(expanded[k] != 128);
    }
    lemma_right_side_recovered(code, msg, expanded, Some(mask), before, after, res);
}

/// Registers that hold the same agree in the bits that they hold.
pub proof fn lemma_same_window(x: Seq<bool>, y: Seq<bool>, n: nat)
    requires
        x.len() == y.len(),
        window(x, n) == window(y, n),
    ensures
        forall|i: int| 0 <= i < x.len() && x.len() - n <= i ==> x[i] == y[i],
    decreases n,
{
    if n > 0 && x.len() > 0 {
        let (v, w) = (x.drop_last(), y.drop_last());
        assert(window(x, n) == 2 * window(v, (n - 1) as nat) + bit_value(x.last()));
        assert(window(y, n) == 2 * window(w, (n - 1) as nat) + bit_value(y.last()));
        lemma_same_window(v, w, (n - 1) as nat);
        assert forall|i: int| 0 <= i < x.len() && x.len() - n <= i implies x[i] == y[i] by {
            if i < x.len() - 1 {
                assert(v[i] == w[i]);
            }
        }
    }
}

/// In the last place where the paths differ, `x` has a clear bit and `y` a set one.
pub open spec fn clear_where_last_differing(x: Seq<bool>, y: Seq<bool>) -> bool {
    exists|m: int|
        0 <= m < x.len() && m < y.len() && !(#[trigger] x[m]) && y[m] && forall|i: int|
            m < i < x.len() ==> x[i] == y[i]
}

/// Of the cheapest paths into a state the decoder keeps the one with a clear bit in the
/// last place where it differs from another.
pub proof fn lemma_tie(code: Trellis, cost: spec_fn(int, bool) -> nat, y: Seq<bool>)
    requires
        code.valid(),
        code.path_cost(cost, y) == code.metric(cost, y.len(), code.state(y)),
    ensures
        code.survivor(cost, y.len(), code.state(y)) == y || clear_where_last_differing(
            code.survivor(cost, y.len(), code.state(y)),
            y,
        ),
    decreases y.len(),
{
    let t = y.len();
    let s = code.state(y);
    let x = code.survivor(cost, t, s);
    if t == 0 {
        assert(x =~= y);
    } else {
        let i = (t - 1) as nat;
        let short = y.drop_last();
        let high = code.lemma_step(y);
        let c = code.choice(cost, i, s);
        code.lemma_metric_least(cost, short);
        code.lemma_metric_step(cost, i, s);
        code.lemma_state_live(y);
        code.lemma_previous_live(i, s, c);
        code.lemma_survivor(cost, t, s);
        code.lemma_survivor(cost, i, code.previous(s, c));
        let rest = code.survivor(cost, i, code.previous(s, c));
        assert(x == rest.push(s % 2 == 1));
        assert(x.drop_last() =~= rest);
        if c == high {
            lemma_tie(code, cost, short);
            if rest == short {
                assert(x =~= y);
            } else {
                let m = choose|m: int|
                    0 <= m < rest.len() && m < short.len() && !(#[trigger] rest[m]) && short[m]
                        && forall|i: int| m < i < rest.len() ==> rest[i] == short[i];
                assert(!x[m] && y[m]);
                assert forall|i: int| m < i < x.len() implies x[i] == y[i] by {
                    if i < x.len() - 1 {
                        assert(rest[i] == short[i]);
                    }
                }
            }
        } else {
            let other = code.lemma_step(x);
            let m = t - code.order;
            lemma_pow2_pos((code.order - 2) as nat);
            let h = pow2((code.order - 2) as nat) as int;
            assert(c == 0 && high == 1);
            assert(code.previous(s, other) == code.previous(s, c));
            assert(other == 0) by (nonlinear_arith)
                requires
                    other * h == 0 * h,
                    h > 0,
            ;
            lemma_same_window(x, y, (code.order - 1) as nat);
            assert(!x[m] && y[m]);
        }
    }
}

/// How far everything that arrived is from what a path puts out.
pub open spec fn off_by(
    code: Trellis,
    cost: spec_fn(int, bool) -> nat,
    y: Seq<bool>,
) -> nat {
    total(|k: int| cost(k, code.encoded_bit(y, k)), y.len() * code.rate)
}

/// The register is flushed at the end.
pub open spec fn ends_flushed(y: Seq<bool>, order: nat) -> bool {
    forall|i: int| y.len() - (order - 1) <= i < y.len() ==> !(#[trigger] y[i])
}

/// A block of fewer than `16 * order - 1` steps decodes to the start of a path that
/// no flushed path undercuts: nothing explains what arrived better.
proof fn lemma_closest(
    code: Trellis,
    cost: spec_fn(int, bool) -> nat,
    num_encoded_bits: usize,
    before: Seq<u8>,
    after: Seq<u8>,
    res: Result<usize, DecodeError>,
) -> (y: Seq<bool>)
    requires
        code.valid(),
        code.order >= 4,
        bounded_cost(cost),
        num_encoded_bits as int % (code.rate as int) == 0,
        2 * code.order - 1 <= num_encoded_bits as int / (code.rate as int) < 16 * code.order - 1,
        decode_result(code, cost, num_encoded_bits, true, before, after, res),
        res is Ok,
    ensures
        y.len() * code.rate == num_encoded_bits,
        ends_flushed(y, code.order),
        8 * res->Ok_0 <= y.len(),
        forall|i: int| 0 <= i < 8 * res->Ok_0 ==> #[trigger] bit_at(after, i) == y[i],
        forall|z: Seq<bool>| #[trigger]
            z.len() == y.len() && ends_flushed(z, code.order) ==> off_by(code, cost, y)
                <= #[trigger] off_by(code, cost, z),
        forall|z: Seq<bool>|
            z.len() == y.len() && ends_flushed(z, code.order) && #[trigger] off_by(code, cost, z)
                == off_by(code, cost, y) ==> z == y || clear_where_last_differing(y, z),
{
    let run = run_for(code, cost, num_encoded_bits as int);
    let y = code.survivor(cost, run.total, 0);
    let rate = code.rate as int;
    lemma_fundamental_div_mod(num_encoded_bits as int, rate);
    assert(rate * run.total == run.total * rate) by (nonlinear_arith);
    lemma_pow2_pos(run.head());
    code.lemma_survivor(cost, run.total, 0);
    lemma_window_zero(y, run.head());
    lemma_short_block_is_optimal(run, y);
    lemma_path_total(code, cost, y, |k: int| cost(k, code.encoded_bit(y, k)));
    assert forall|i: int| 0 <= i < 8 * res->Ok_0 implies #[trigger] bit_at(after, i) == y[i] by {
        assert(bit_at(after, i) == run.decoded_bit(i));
    }
    assert forall|z: Seq<bool>| z.len() == y.len() && ends_flushed(z, code.order) implies off_by(
        code,
        cost,
        y,
    ) <= #[trigger] off_by(code, cost, z) by {
        lemma_zero_window(z, run.head());
        lemma_short_block_is_optimal(run, z);
        lemma_path_total(code, cost, z, |k: int| cost(k, code.encoded_bit(z, k)));
    }
    assert forall|z: Seq<bool>|
        z.len() == y.len() && ends_flushed(z, code.order) && #[trigger] off_by(code, cost, z)
            == off_by(code, cost, y) implies z == y || clear_where_last_differing(y, z) by {
        lemma_zero_window(z, run.head());
        lemma_path_total(code, cost, z, |k: int| cost(k, code.encoded_bit(z, k)));
        lemma_tie(code, cost, z);
    }
    y
}

/// How far the counted symbols are from what a path puts out. A symbol of 128 is not
/// counted.
pub open spec fn symbols_off(
    code: Trellis,
    symbols: Seq<u8>,
    mask: Option<Seq<u8>>,
    y: Seq<bool>,
) -> nat {
    total(
        |k: int|
            if counts(mask, k) && symbols[k] != 128 {
                far(symbols[k], code.encoded_bit(y, k))
            } else {
                0nat
            },
        y.len() * code.rate,
    )
}

/// The number of counted bits that arrived otherwise than a path puts them out.
pub open spec fn bits_off(
    code: Trellis,
    block: Seq<u8>,
    mask: Option<Seq<u8>>,
    y: Seq<bool>,
) -> nat {
    total(
        |k: int|
            if counts(mask, k) && ((block[k / 8] >> ((7 - k % 8) as u8)) & 1u8 == 1u8)
                != code.encoded_bit(y, k) {
                1nat
            } else {
                0nat
            },
        y.len() * code.rate,
    )
}

/// `y` is a path through the whole block that ends flushed, starts with the decoded
/// bits, and puts out something that lies no farther from what arrived than what any
/// other such path puts out. Of several that lie as close it is the one with a clear
/// bit in the last place where it differs from another.
pub open spec fn is_closest(
    order: nat,
    off: spec_fn(Seq<bool>) -> nat,
    after: Seq<u8>,
    len: int,
    y: Seq<bool>,
) -> bool {
    &&& ends_flushed(y, order)
    &&& 8 * len <= y.len()
    &&& forall|i: int|
        0 <= i < 8 * len ==> ((#[trigger] after[i / 8] >> ((7 - i % 8) as u8)) & 1u8 == 1u8)
            == y[i]
    &&& forall|z: Seq<bool>| #[trigger]
        off(z) >= off(y) || z.len() != y.len() || !ends_flushed(z, order)
    &&& forall|z: Seq<bool>| #[trigger]
        off(z) == off(y) && z.len() == y.len() && ends_flushed(z, order) ==> z == y
            || clear_where_last_differing(y, z)
}

/// A block of fewer than `16 * order - 1` soft steps decodes to the message that
/// lies closest to the counted symbols.
pub proof fn lemma_closest_symbols(
    code: Trellis,
    symbols: Seq<u8>,
    mask: Option<Seq<u8>>,
    before: Seq<u8>,
    after: Seq<u8>,
    res: Result<usize, DecodeError>,
) -> (y: Seq<bool>)
    requires
        code.valid(),
        code.order >= 4,
        symbols.len() <= usize::MAX,
        symbols.len() as int % (code.rate as int) == 0,
        2 * code.order - 1 <= symbols.len() as int / (code.rate as int) < 16 * code.order - 1,
        decode_result(
            code,
            soft_cost(symbols, mask),
            symbols.len() as usize,
            true,
            before,
            after,
            res,
        ),
        res is Ok,
    ensures
        y.len() * code.rate == symbols.len(),
        is_closest(
            code.order,
            |z: Seq<bool>| symbols_off(code, symbols, mask, z),
            after,
            res->Ok_0 as int,
            y,
        ),
{
    let cost = soft_cost(symbols, mask);
    let off = |z: Seq<bool>| symbols_off(code, symbols, mask, z);
    lemma_costs_bounded(symbols, mask);
    let y = lemma_closest(code, cost, symbols.len() as usize, before, after, res);
    assert forall|z: Seq<bool>| off_by(code, cost, z) == #[trigger] off(z) by {
        let f = |k: int| cost(k, code.encoded_bit(z, k));
        let g = |k: int|
            if counts(mask, k) && symbols[k] != 128 {
                far(symbols[k], code.encoded_bit(z, k))
            } else {
                0nat
            };
        assert forall|k: int| 0 <= k < z.len() * code.rate implies #[trigger] f(k) == g(k) by {
            lemma_flag(mask, k);
        }
        lemma_total_equal(f, g, z.len() * code.rate);
    }
    lemma_is_closest(code, cost, off, after, res->Ok_0 as int, y);
    y
}

/// A block of fewer than `16 * order - 1` hard steps decodes to the message whose
/// encoding differs from what arrived in the fewest counted bits.
pub proof fn lemma_closest_bits(
    code: Trellis,
    block: Seq<u8>,
    num_encoded_bits: usize,
    mask: Option<Seq<u8>>,
    before: Seq<u8>,
    after: Seq<u8>,
    res: Result<usize, DecodeError>,
) -> (y: Seq<bool>)
    requires
        code.valid(),
        code.order >= 4,
        num_encoded_bits as int % (code.rate as int) == 0,
        2 * code.order - 1 <= num_encoded_bits as int / (code.rate as int) < 16 * code.order - 1,
        decode_result(
            code,
            hard_cost(block, mask),
            num_encoded_bits,
            true,
            before,
            after,
            res,
        ),
        res is Ok,
    ensures
        y.len() * code.rate == num_encoded_bits,
        is_closest(
            code.order,
            |z: Seq<bool>| bits_off(code, block, mask, z),
            after,
            res->Ok_0 as int,
            y,
        ),
{
    let cost = hard_cost(block, mask);
    let off = |z: Seq<bool>| bits_off(code, block, mask, z);
    lemma_costs_bounded(block, mask);
    let y = lemma_closest(code, cost, num_encoded_bits, before, after, res);
    assert forall|z: Seq<bool>| off_by(code, cost, z) == #[trigger] off(z) by {
        let f = |k: int| cost(k, code.encoded_bit(z, k));
        let g = |k: int|
            if counts(mask, k) && ((block[k / 8] >> ((7 - k % 8) as u8)) & 1u8 == 1u8)
                != code.encoded_bit(z, k) {
                1nat
            } else {
                0nat
            };
        assert forall|k: int| 0 <= k < z.len() * code.rate implies #[trigger] f(k) == g(k) by {
            lemma_flag(mask, k);
        }
        lemma_total_equal(f, g, z.len() * code.rate);
    }
    lemma_is_closest(code, cost, off, after, res->Ok_0 as int, y);
    y
}

proof fn lemma_is_closest(
    code: Trellis,
    cost: spec_fn(int, bool) -> nat,
    off: spec_fn(Seq<bool>) -> nat,
    after: Seq<u8>,
    len: int,
    y: Seq<bool>,
)
    requires
        ends_flushed(y, code.order),
        8 * len <= y.len(),
        forall|i: int| 0 <= i < 8 * len ==> #[trigger] bit_at(after, i) == y[i],
        forall|z: Seq<bool>|
            z.len() == y.len() && ends_flushed(z, code.order) ==> off_by(code, cost, y)
                <= #[trigger] off_by(code, cost, z),
        forall|z: Seq<bool>|
            z.len() == y.len() && ends_flushed(z, code.order) && #[trigger] off_by(code, cost, z)
                == off_by(code, cost, y) ==> z == y || clear_where_last_differing(y, z),
        forall|z: Seq<bool>| off_by(code, cost, z) == #[trigger] off(z),
    ensures
        is_closest(code.order, off, after, len, y),
{
    assert forall|i: int| 0 <= i < 8 * len implies ((#[trigger] after[i / 8] >> ((7 - i
        % 8) as u8)) & 1u8 == 1u8) == y[i] by {
        assert(bit_at(after, i) == y[i]);
    }
    assert forall|z: Seq<bool>| #[trigger]
        off(z) >= off(y) || z.len() != y.len() || !ends_flushed(z, code.order) by {
        assert(off_by(code, cost, z) == off(z));
        assert(off_by(code, cost, y) == off(y));
    }
    assert forall|z: Seq<bool>| #[trigger]
        off(z) == off(y) && z.len() == y.len() && ends_flushed(z, code.order) implies z == y
        || clear_where_last_differing(y, z) by {
        assert(off_by(code, cost, z) == off(z));
        assert(off_by(code, cost, y) == off(y));
    }
}

/// Which lengths a decode accepts and how much it writes: the block is a whole
/// number of steps, at least `2 * order - 1` of them, and yields whole bytes of what
/// is left when `order + 1` steps are taken off. Nothing else is touched.
pub proof fn lemma_decode_shape(
    code: Trellis,
    cost: spec_fn(int, bool) -> nat,
    num_encoded_bits: usize,
    covered: bool,
    before: Seq<u8>,
    after: Seq<u8>,
    res: Result<usize, DecodeError>,
)
    requires
        code.valid(),
        decode_result(code, cost, num_encoded_bits, covered, before, after, res),
    ensures
        ({
            let bits = num_encoded_bits as int;
            let steps = bits / (code.rate as int);
            let spare = if steps >= code.order + 1 {
                steps - (code.order + 1)
            } else {
                0
            };
            if bits % (code.rate as int) != 0 || steps < 2 * code.order - 1 || !covered {
                &&& res matches Err(DecodeError::InvalidLength { num_encoded_bits: n, rate })
                &&& n == bits
                &&& rate == code.rate
                &&& after == before
            } else if 8 * before.len() <= spare - 8 {
                &&& res matches Err(DecodeError::OutputTooSmall { needed, actual })
                &&& 8 * needed <= spare < 8 * needed + 8
                &&& actual == before.len()
                &&& after == before
            } else {
                &&& res matches Ok(n)
                &&& 8 * n <= spare < 8 * n + 8
                &&& after.len() == before.len()
                &&& forall|i: int| n <= i < after.len() ==> #[trigger] after[i] == before[i]
            }
        }),
{
    if res is Ok {
        let n = res->Ok_0 as int;
        assert forall|i: int| n <= i < after.len() implies #[trigger] after[i] == before[i] by {
            assert(after.skip(n)[i - n] == before.skip(n)[i - n]);
        }
    }
}

} // verus!
