//! What holds of encoder and decoder together.

use super::bit::{bit_at, bits_of, byte_bit};
use super::channel::{hard_cost, is_erased, lemma_costs_bounded, soft_cost};
use super::decoder::{decode_result, payload_written, run_for};
use super::encoder::{encoded_len, is_encoded};
use super::error::{bytes_for, payload_len, DecodeError};
use super::trellis::{bounded_cost, dist_upto, window, Trellis};
use super::viterbi::{
    lemma_best_exists, lemma_clean_bit, lemma_truth_kept, lemma_window_zero, lemma_zero_window, Run,
};
use vstd::arithmetic::power2::{lemma_pow2_pos, pow2};
use vstd::prelude::*;

verus! {

/// Bytes with the same eight bits are equal.
proof fn lemma_byte_from_bits(a: u8, b: u8)
    requires
        forall|i: int| 0 <= i < 8 ==> #[trigger] byte_bit(a, i) == byte_bit(b, i),
    ensures
        a == b,
{
    assert(byte_bit(a, 0) == byte_bit(b, 0));
    assert(byte_bit(a, 1) == byte_bit(b, 1));
    assert(byte_bit(a, 2) == byte_bit(b, 2));
    assert(byte_bit(a, 3) == byte_bit(b, 3));
    assert(byte_bit(a, 4) == byte_bit(b, 4));
    assert(byte_bit(a, 5) == byte_bit(b, 5));
    assert(byte_bit(a, 6) == byte_bit(b, 6));
    assert(byte_bit(a, 7) == byte_bit(b, 7));
    assert(a == b) by (bit_vector)
        requires
            ((a >> 7u8) & 1u8 == 1u8) == ((b >> 7u8) & 1u8 == 1u8),
            ((a >> 6u8) & 1u8 == 1u8) == ((b >> 6u8) & 1u8 == 1u8),
            ((a >> 5u8) & 1u8 == 1u8) == ((b >> 5u8) & 1u8 == 1u8),
            ((a >> 4u8) & 1u8 == 1u8) == ((b >> 4u8) & 1u8 == 1u8),
            ((a >> 3u8) & 1u8 == 1u8) == ((b >> 3u8) & 1u8 == 1u8),
            ((a >> 2u8) & 1u8 == 1u8) == ((b >> 2u8) & 1u8 == 1u8),
            ((a >> 1u8) & 1u8 == 1u8) == ((b >> 1u8) & 1u8 == 1u8),
            ((a >> 0u8) & 1u8 == 1u8) == ((b >> 0u8) & 1u8 == 1u8),
    ;
}

/// Packed streams with the same bits are the same bytes.
pub proof fn lemma_bytes_from_bits(a: Seq<u8>, b: Seq<u8>)
    requires
        a.len() == b.len(),
        forall|i: int| 0 <= i < 8 * a.len() ==> #[trigger] bit_at(a, i) == bit_at(b, i),
    ensures
        a == b,
{
    assert forall|k: int| 0 <= k < a.len() implies a[k] == b[k] by {
        assert forall|i: int| 0 <= i < 8 implies #[trigger] byte_bit(a[k], i) == byte_bit(
            b[k],
            i,
        ) by {
            let at = 8 * k + i;
            assert(at / 8 == k && at % 8 == i);
            assert(bit_at(a, at) == bit_at(b, at));
        }
        lemma_byte_from_bits(a[k], b[k]);
    }
    assert(a =~= b);
}

/// Steps and encoded bits of an encoded message.
pub proof fn lemma_encoded_total(code: Trellis, len: int)
    requires
        code.valid(),
        len >= 0,
    ensures
        ({
            let bits = encoded_len(code.rate as int, code.order as int, len);
            let total = 8 * len + code.order + 1;
            &&& bits / (code.rate as int) == total
            &&& bits % (code.rate as int) == 0
            &&& total * code.rate == bits
            &&& payload_len(bits, code.rate as int, code.order as int) == len
        }),
{
    let (rate, total) = (code.rate as int, 8 * len + code.order + 1);
    assert(rate * total == total * rate) by (nonlinear_arith);
    vstd::arithmetic::div_mod::lemma_fundamental_div_mod_converse(rate * total, rate, total, 0);
}

/// Under costs that fit a message's encoding and nothing else, decoding gives
/// the message back.
proof fn lemma_clean_round_trip(
    code: Trellis,
    cost: spec_fn(int, bool) -> nat,
    msg: Seq<u8>,
    before: Seq<u8>,
    after: Seq<u8>,
)
    requires
        code.valid(),
        code.order >= 4,
        code.has_tap(),
        bounded_cost(cost),
        8 * msg.len() + 2 >= code.order,
        code.clean(cost, code.flushed(bits_of(msg))),
        payload_written(
            run_for(
                code,
                cost,
                encoded_len(code.rate as int, code.order as int, msg.len() as int),
            ),
            msg.len() as int,
            before,
            after,
        ),
    ensures
        after.take(msg.len() as int) == msg,
{
    let bits = encoded_len(code.rate as int, code.order as int, msg.len() as int);
    let run = run_for(code, cost, bits);
    let x = code.flushed(bits_of(msg));
    lemma_encoded_total(code, msg.len() as int);
    let out = after.take(msg.len() as int);
    assert forall|i: int| 0 <= i < 8 * out.len() implies #[trigger] bit_at(out, i) == bit_at(
        msg,
        i,
    ) by {
        assert(out[i / 8] == after[i / 8]);
        assert(bit_at(after, i) == run.decoded_bit(i));
        lemma_clean_bit(run, x, i);
        assert(x[i] == bits_of(msg)[i]);
    }
    lemma_bytes_from_bits(out, msg);
}

/// Decoding an encoded message, hard bits arriving as they were sent, gives the
/// message back. The message must be long enough to fill and flush the register,
/// and some polynomial must tap it.
pub proof fn lemma_hard_round_trip(
    code: Trellis,
    msg: Seq<u8>,
    block: Seq<u8>,
    num_encoded_bits: usize,
    before: Seq<u8>,
    after: Seq<u8>,
    res: Result<usize, DecodeError>,
)
    requires
        code.valid(),
        code.order >= 4,
        code.has_tap(),
        8 * msg.len() + 2 >= code.order,
        num_encoded_bits == encoded_len(code.rate as int, code.order as int, msg.len() as int),
        is_encoded(code, msg, block),
        before.len() >= msg.len(),
        decode_result(
            code,
            hard_cost(block, None),
            num_encoded_bits,
            bytes_for(num_encoded_bits as int) <= block.len(),
            before,
            after,
            res,
        ),
    ensures
        res matches Ok(n) && n == msg.len(),
        after.take(msg.len() as int) == msg,
        after.skip(msg.len() as int) == before.skip(msg.len() as int),
{
    let cost = hard_cost(block, None);
    let x = code.flushed(bits_of(msg));
    lemma_costs_bounded(block, None);
    lemma_encoded_total(code, msg.len() as int);
    assert(code.clean(cost, x)) by {
        assert forall|k: int, b: bool| 0 <= k < x.len() * code.rate implies (#[trigger] cost(k, b)
            == 0 <==> b == code.encoded_bit(x, k)) by {
            assert(bit_at(block, k) == code.encoded_bit(x, k));
        }
    }
    lemma_clean_round_trip(code, cost, msg, before, after);
}

/// The same for soft symbols that are fully confident: 255 for a set bit, 0 for
/// a clear one.
pub proof fn lemma_soft_round_trip(
    code: Trellis,
    msg: Seq<u8>,
    symbols: Seq<u8>,
    before: Seq<u8>,
    after: Seq<u8>,
    res: Result<usize, DecodeError>,
)
    requires
        code.valid(),
        code.order >= 4,
        code.has_tap(),
        8 * msg.len() + 2 >= code.order,
        symbols.len() == encoded_len(code.rate as int, code.order as int, msg.len() as int),
        symbols.len() <= usize::MAX,
        forall|k: int|
            0 <= k < symbols.len() ==> #[trigger] symbols[k] == if code.encoded_bit(
                code.flushed(bits_of(msg)),
                k,
            ) {
                255u8
            } else {
                0u8
            },
        before.len() >= msg.len(),
        decode_result(
            code,
            soft_cost(symbols, None),
            symbols.len() as usize,
            true,
            before,
            after,
            res,
        ),
    ensures
        res matches Ok(n) && n == msg.len(),
        after.take(msg.len() as int) == msg,
        after.skip(msg.len() as int) == before.skip(msg.len() as int),
{
    let cost = soft_cost(symbols, None);
    let x = code.flushed(bits_of(msg));
    lemma_costs_bounded(symbols, None);
    lemma_encoded_total(code, msg.len() as int);
    assert(code.clean(cost, x)) by {
        assert forall|k: int, b: bool| 0 <= k < x.len() * code.rate implies (#[trigger] cost(k, b)
            == 0 <==> b == code.encoded_bit(x, k)) by {
            assert(symbols[k] == if code.encoded_bit(x, k) {
                255u8
            } else {
                0u8
            });
        }
    }
    lemma_clean_round_trip(code, cost, msg, before, after);
}

/// A block that fits in the history is decoded to a cheapest of all the paths
/// that end in the zero state: no message explains what was received better.
pub proof fn lemma_short_block_is_optimal(run: Run, x: Seq<bool>)
    requires
        run.valid(),
        run.rows() < run.capacity(),
        x.len() == run.total,
        run.code.state(x) == 0,
    ensures
        forall|r: int|
            0 <= r < run.rows() ==> #[trigger] run.decoded_bit(r) == run.code.survivor(
                run.cost,
                run.total,
                0,
            )[r],
        run.code.path_cost(run.cost, run.code.survivor(run.cost, run.total, 0))
            <= run.code.path_cost(run.cost, x),
{
    lemma_pow2_pos(run.head());
    run.code.lemma_survivor(run.cost, run.total, 0);
    run.code.lemma_metric_least(run.cost, x);
    assert forall|r: int| 0 <= r < run.rows() implies #[trigger] run.decoded_bit(r)
        == run.code.survivor(run.cost, run.total, 0)[r] by {
        let g = run.group();
        vstd::arithmetic::div_mod::lemma_div_pos_is_pos(r, g);
        assert((r / g) * g >= 0) by (nonlinear_arith)
            requires
                r / g >= 0,
                g > 0,
        ;
    }
}

/// What a decode gives back is settled by the code, the costs and the buffer:
/// any two decoders that meet the same contract agree.
pub proof fn lemma_decoders_agree(
    code: Trellis,
    cost: spec_fn(int, bool) -> nat,
    num_encoded_bits: usize,
    covered: bool,
    before: Seq<u8>,
    after1: Seq<u8>,
    res1: Result<usize, DecodeError>,
    after2: Seq<u8>,
    res2: Result<usize, DecodeError>,
)
    requires
        decode_result(code, cost, num_encoded_bits, covered, before, after1, res1),
        decode_result(code, cost, num_encoded_bits, covered, before, after2, res2),
    ensures
        res1 == res2,
        after1 == after2,
{
    if res1 is Ok {
        let run = run_for(code, cost, num_encoded_bits as int);
        let n = payload_len(num_encoded_bits as int, code.rate as int, code.order as int);
        let (a, b) = (after1.take(n), after2.take(n));
        assert forall|i: int| 0 <= i < 8 * n implies #[trigger] bit_at(a, i) == bit_at(b, i) by {
            assert(a[i / 8] == after1[i / 8] && b[i / 8] == after2[i / 8]);
            assert(bit_at(after1, i) == run.decoded_bit(i));
            assert(bit_at(after2, i) == run.decoded_bit(i));
        }
        lemma_bytes_from_bits(a, b);
        assert(after1 =~= a + after1.skip(n));
        assert(after2 =~= b + after2.skip(n));
    }
}

/// A block that fits in the history is decoded to the path that explains what
/// was received best, where there is just one such path.
pub proof fn lemma_cheapest_path_is_decoded(run: Run, x: Seq<bool>, r: int)
    requires
        run.valid(),
        run.rows() < run.capacity(),
        x.len() == run.total,
        run.code.state(x) == 0,
        forall|y: Seq<bool>|
            y.len() == run.total && run.code.state(y) == 0 && y != x ==> run.code.path_cost(
                run.cost,
                x,
            ) < #[trigger] run.code.path_cost(run.cost, y),
        0 <= r < run.rows(),
    ensures
        run.decoded_bit(r) == x[r],
{
    let y = run.code.survivor(run.cost, run.total, 0);
    lemma_pow2_pos(run.head());
    run.code.lemma_survivor(run.cost, run.total, 0);
    lemma_short_block_is_optimal(run, x);
    if y != x {
        assert(run.code.path_cost(run.cost, x) < run.code.path_cost(run.cost, y));
    }
    assert(run.decoded_bit(r) == y[r]);
}

/// How many steps the decoder has seen when it emits bit `r`.
pub open spec fn seen_for(run: Run, r: int) -> nat {
    if run.traceback_for(r) <= run.rows() {
        (run.head() + run.traceback_for(r)) as nat
    } else {
        run.total
    }
}

/// A path that the decoder could read bit `r` from, and that has another value
/// there than `x`. At the end of the block only the zero state is left.
pub open spec fn is_rival(run: Run, x: Seq<bool>, r: int, y: Seq<bool>) -> bool {
    &&& y.len() == seen_for(run, r)
    &&& y[r] != x[r]
    &&& seen_for(run, r) == run.total ==> run.code.state(y) == 0
}

/// Each bit of a block of any length comes out as it was sent, if what the
/// decoder has seen when it emits the bit fits the sent path better than every
/// path with the other value there.
pub proof fn lemma_sent_bit_is_decoded(run: Run, x: Seq<bool>, r: int)
    requires
        run.valid(),
        x.len() == run.total,
        run.code.state(x) == 0,
        0 <= r < run.rows(),
        forall|y: Seq<bool>|
            is_rival(run, x, r, y) ==> run.code.path_cost(run.cost, x.take(seen_for(run, r) as int))
                < #[trigger] run.code.path_cost(run.cost, y),
    ensures
        run.decoded_bit(r) == x[r],
{
    let code = run.code;
    let n = run.traceback_for(r);
    let t = seen_for(run, r);
    let sent = x.take(t as int);
    let g = run.group();
    vstd::arithmetic::div_mod::lemma_fundamental_div_mod(r, g);
    vstd::arithmetic::div_mod::lemma_div_pos_is_pos(r, g);
    assert((r / g) * g == g * (r / g) >= 0) by (nonlinear_arith)
        requires
            r / g >= 0,
            g > 0,
    ;
    lemma_pow2_pos(run.head());
    code.lemma_metric_least(run.cost, sent);
    let s = if n <= run.rows() {
        run.best(n)
    } else {
        0
    };
    if n <= run.rows() {
        lemma_window_zero(x, run.head());
        lemma_truth_kept(run, x, t as int);
        lemma_best_exists(run, n);
        if t == run.total {
            assert(run.step_at(t - 1) == pow2(run.head()));
            vstd::arithmetic::div_mod::lemma_small_mod(s as nat, pow2(run.head()));
        }
    } else {
        assert(sent =~= x);
    }
    code.lemma_survivor(run.cost, t, s);
    let y = code.survivor(run.cost, t, s);
    if y[r] != x[r] {
        assert(is_rival(run, x, r, y));
        assert(code.path_cost(run.cost, sent) < code.path_cost(run.cost, y));
    }
}

/// What the channel holds against leaving `x`: the cost of each encoded bit that
/// differs from those of `x`.
pub open spec fn held_by(
    code: Trellis,
    x: Seq<bool>,
    cost: spec_fn(int, bool) -> nat,
) -> spec_fn(int, bool) -> nat {
    |k: int, b: bool|
        if b == code.encoded_bit(x, k) {
            0nat
        } else {
            cost(k, b)
        }
}

/// What leaving `x` saves: the cost of `x` itself, wherever an encoded bit
/// differs from those of `x`.
pub open spec fn lost_by(
    code: Trellis,
    x: Seq<bool>,
    cost: spec_fn(int, bool) -> nat,
) -> spec_fn(int, bool) -> nat {
    |k: int, b: bool|
        if b == code.encoded_bit(x, k) {
            0nat
        } else {
            cost(k, !b)
        }
}

proof fn lemma_balance_step(
    code: Trellis,
    x: Seq<bool>,
    cost: spec_fn(int, bool) -> nat,
    t: int,
    out: nat,
    n: nat,
)
    requires
        code.valid(),
        0 <= t < x.len(),
        n <= code.rate,
    ensures
        dist_upto(cost, t * code.rate, out, n) + dist_upto(
            lost_by(code, x, cost),
            t * code.rate,
            out,
            n,
        ) == dist_upto(
            cost,
            t * code.rate,
            code.output(window(x.take(t + 1), code.order)),
            n,
        ) + dist_upto(held_by(code, x, cost), t * code.rate, out, n),
    decreases n,
{
    if n > 0 {
        let j = (n - 1) as nat;
        lemma_balance_step(code, x, cost, t, out, j);
        code.lemma_encoded_index(x, t, j as int);
    }
}

/// Two paths differ in cost by what the channel holds against the step from one
/// to the other, less what the step saves.
proof fn lemma_balance(
    code: Trellis,
    x: Seq<bool>,
    y: Seq<bool>,
    cost: spec_fn(int, bool) -> nat,
    t: int,
)
    requires
        code.valid(),
        0 <= t <= x.len(),
        t <= y.len(),
    ensures
        code.path_cost(cost, y.take(t)) + code.path_cost(lost_by(code, x, cost), y.take(t))
            == code.path_cost(cost, x.take(t)) + code.path_cost(
            held_by(code, x, cost),
            y.take(t),
        ),
    decreases t,
{
    if t > 0 {
        lemma_balance(code, x, y, cost, t - 1);
        let (u, v) = (x.take(t), y.take(t));
        assert(u.drop_last() =~= x.take(t - 1));
        assert(v.drop_last() =~= y.take(t - 1));
        lemma_balance_step(
            code,
            x,
            cost,
            t - 1,
            code.output(window(v, code.order)),
            code.rate,
        );
    }
}

/// Errors are corrected, in blocks of any length and under any costs: bit `r` of
/// what was sent comes out where, for every path with another value there, the
/// channel holds more against leaving what was sent than leaving it saves.
/// Errors where the two paths agree count for nothing.
pub proof fn lemma_corrects(run: Run, x: Seq<bool>, r: int)
    requires
        run.valid(),
        x.len() == run.total,
        run.code.state(x) == 0,
        0 <= r < run.rows(),
        forall|y: Seq<bool>|
            is_rival(run, x, r, y) ==> run.code.path_cost(lost_by(run.code, x, run.cost), y)
                < #[trigger] run.code.path_cost(held_by(run.code, x, run.cost), y),
    ensures
        run.decoded_bit(r) == x[r],
{
    let t = seen_for(run, r) as int;
    assert forall|y: Seq<bool>| is_rival(run, x, r, y) implies run.code.path_cost(
        run.cost,
        x.take(t),
    ) < #[trigger] run.code.path_cost(run.cost, y) by {
        lemma_balance(run.code, x, y, run.cost, t);
        assert(y.take(t) =~= y);
        assert(run.code.path_cost(lost_by(run.code, x, run.cost), y) < run.code.path_cost(
            held_by(run.code, x, run.cost),
            y,
        ));
    }
    lemma_sent_bit_is_decoded(run, x, r);
}

/// Counts the encoded bits that are not erased and differ from those of `x`.
pub open spec fn differs_from(
    code: Trellis,
    x: Seq<bool>,
    mask: Option<Seq<u8>>,
) -> spec_fn(int, bool) -> nat {
    |k: int, b: bool|
        if is_erased(mask, k) || b == code.encoded_bit(x, k) {
            0nat
        } else {
            1nat
        }
}

proof fn lemma_hard_split_step(
    code: Trellis,
    x: Seq<bool>,
    block: Seq<u8>,
    mask: Option<Seq<u8>>,
    base: int,
    out: nat,
    n: nat,
)
    ensures
        dist_upto(differs_from(code, x, mask), base, out, n) == dist_upto(
            held_by(code, x, hard_cost(block, mask)),
            base,
            out,
            n,
        ) + dist_upto(lost_by(code, x, hard_cost(block, mask)), base, out, n),
    decreases n,
{
    if n > 0 {
        lemma_hard_split_step(code, x, block, mask, base, out, (n - 1) as nat);
    }
}

/// Where two paths differ, each unerased bit was received as one or as the other
/// sends it.
pub proof fn lemma_hard_split(
    code: Trellis,
    x: Seq<bool>,
    y: Seq<bool>,
    block: Seq<u8>,
    mask: Option<Seq<u8>>,
)
    ensures
        code.path_cost(differs_from(code, x, mask), y) == code.path_cost(
            held_by(code, x, hard_cost(block, mask)),
            y,
        ) + code.path_cost(lost_by(code, x, hard_cost(block, mask)), y),
    decreases y.len(),
{
    if y.len() > 0 {
        lemma_hard_split(code, x, y.drop_last(), block, mask);
        lemma_hard_split_step(
            code,
            x,
            block,
            mask,
            (y.len() - 1) * code.rate,
            code.output(window(y, code.order)),
            code.rate,
        );
    }
}

/// Hard decisions: bit `r` comes out as it was sent where every path with another
/// value there differs from what was sent in more than twice as many unerased
/// bits as were received wrong among those. Erased bits count for nothing, so
/// this also says how far a punctured code corrects.
pub proof fn lemma_corrects_errors(
    code: Trellis,
    x: Seq<bool>,
    block: Seq<u8>,
    mask: Option<Seq<u8>>,
    r: int,
)
    requires
        code.valid(),
        code.order >= 4,
        x.len() >= 2 * code.order - 1,
        code.state(x) == 0,
        0 <= r < (Run { code, cost: hard_cost(block, mask), total: x.len() }).rows(),
        forall|y: Seq<bool>|
            is_rival(Run { code, cost: hard_cost(block, mask), total: x.len() }, x, r, y)
                ==> #[trigger] code.path_cost(differs_from(code, x, mask), y) > 2 * code.path_cost(
                lost_by(code, x, hard_cost(block, mask)),
                y,
            ),
    ensures
        (Run { code, cost: hard_cost(block, mask), total: x.len() }).decoded_bit(r) == x[r],
{
    let cost = hard_cost(block, mask);
    let run = Run { code, cost, total: x.len() };
    lemma_costs_bounded(block, mask);
    assert forall|y: Seq<bool>| is_rival(run, x, r, y) implies code.path_cost(
        lost_by(code, x, cost),
        y,
    ) < #[trigger] code.path_cost(held_by(code, x, cost), y) by {
        lemma_hard_split(code, x, y, block, mask);
        assert(code.path_cost(differs_from(code, x, mask), y) > 2 * code.path_cost(
            lost_by(code, x, cost),
            y,
        ));
    }
    lemma_corrects(run, x, r);
}

/// Soft decisions: bit `r` comes out as it was sent where, for every path with
/// another value there, the symbols of the encoded bits in which the two differ
/// lie closer to what was sent, taken together.
pub proof fn lemma_corrects_soft_errors(
    code: Trellis,
    x: Seq<bool>,
    symbols: Seq<u8>,
    mask: Option<Seq<u8>>,
    r: int,
)
    requires
        code.valid(),
        code.order >= 4,
        x.len() >= 2 * code.order - 1,
        code.state(x) == 0,
        0 <= r < (Run { code, cost: soft_cost(symbols, mask), total: x.len() }).rows(),
        forall|y: Seq<bool>|
            is_rival(Run { code, cost: soft_cost(symbols, mask), total: x.len() }, x, r, y)
                ==> code.path_cost(lost_by(code, x, soft_cost(symbols, mask)), y)
                < #[trigger] code.path_cost(held_by(code, x, soft_cost(symbols, mask)), y),
    ensures
        (Run { code, cost: soft_cost(symbols, mask), total: x.len() }).decoded_bit(r) == x[r],
{
    lemma_costs_bounded(symbols, mask);
    lemma_corrects(Run { code, cost: soft_cost(symbols, mask), total: x.len() }, x, r);
}

/// A whole message comes back, whatever its length and whatever the costs, where
/// each of its bits does.
pub proof fn lemma_message_corrected(
    code: Trellis,
    cost: spec_fn(int, bool) -> nat,
    msg: Seq<u8>,
    num_encoded_bits: usize,
    before: Seq<u8>,
    after: Seq<u8>,
    res: Result<usize, DecodeError>,
)
    requires
        code.valid(),
        code.order >= 4,
        bounded_cost(cost),
        8 * msg.len() + 2 >= code.order,
        num_encoded_bits == encoded_len(code.rate as int, code.order as int, msg.len() as int),
        before.len() >= msg.len(),
        decode_result(code, cost, num_encoded_bits, true, before, after, res),
        forall|r: int, y: Seq<bool>|
            0 <= r < 8 * msg.len() && #[trigger] is_rival(
                run_for(code, cost, num_encoded_bits as int),
                code.flushed(bits_of(msg)),
                r,
                y,
            ) ==> code.path_cost(lost_by(code, code.flushed(bits_of(msg)), cost), y)
                < code.path_cost(held_by(code, code.flushed(bits_of(msg)), cost), y),
    ensures
        res matches Ok(n) && n == msg.len(),
        after.take(msg.len() as int) == msg,
        after.skip(msg.len() as int) == before.skip(msg.len() as int),
{
    let run = run_for(code, cost, num_encoded_bits as int);
    let x = code.flushed(bits_of(msg));
    lemma_encoded_total(code, msg.len() as int);
    lemma_zero_window(x, run.head());
    let out = after.take(msg.len() as int);
    assert forall|i: int| 0 <= i < 8 * out.len() implies #[trigger] bit_at(out, i) == bit_at(
        msg,
        i,
    ) by {
        assert(out[i / 8] == after[i / 8]);
        assert(bit_at(after, i) == run.decoded_bit(i));
        lemma_corrects(run, x, i);
        assert(x[i] == bits_of(msg)[i]);
    }
    lemma_bytes_from_bits(out, msg);
}

} // verus!
