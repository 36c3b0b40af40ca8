//! Recovery under the guard-interval error model: the encoded block is cut into
//! windows, and at most one bit in each is received wrong.
//!
//! Whether a code stands that is a property of the code alone. The encodings of
//! two messages differ where the encoding of their difference is set, and the
//! errors that matter are those at set bits. So there are no more of them than
//! windows that the difference touches.

use super::bit::{bit_at, bits_of};
use super::channel::{hard_cost, lemma_costs_bounded};
use super::decoder::{decode_result, run_for};
use super::encoder::{encoded_len, is_encoded};
use super::error::{bytes_for, DecodeError};
use super::laws::{differs_from, is_rival, lemma_hard_split, lemma_message_corrected, lost_by};
use super::laws::{held_by, seen_for};
use super::sim::{interval_len, is_picked};
use super::trellis::{dist_upto, dot, lemma_output_bit, window, Trellis};
use super::util::lemma_dot_zero;
use super::viterbi::{lemma_window_zero, lemma_zero_window};
use vstd::arithmetic::div_mod::lemma_fundamental_div_mod;
use vstd::prelude::*;

verus! {

/// No two bits of one window are received wrong.
pub open spec fn one_per_window(
    sent: Seq<u8>,
    received: Seq<u8>,
    interval: int,
    num_bits: int,
) -> bool {
    forall|i: int, j: int|
        0 <= i < j < num_bits && #[trigger] is_wrong(sent, received, i) && #[trigger] is_wrong(
            sent,
            received,
            j,
        ) ==> i / interval != j / interval
}

/// Bit `i` is not received as it was sent.
pub open spec fn is_wrong(sent: Seq<u8>, received: Seq<u8>, i: int) -> bool {
    bit_at(sent, i) != bit_at(received, i)
}

/// Encoded bit `k` of `e` is the first in its window that is set.
pub open spec fn is_first_touch(code: Trellis, e: Seq<bool>, interval: int, k: int) -> bool {
    &&& code.encoded_bit(e, k)
    &&& forall|j: int|
        0 <= j < k && j / interval == k / interval ==> !(#[trigger] code.encoded_bit(e, j))
}

/// The number of windows in which one of the first `n` encoded bits of `e` is set.
pub open spec fn touched(code: Trellis, e: Seq<bool>, interval: int, n: nat) -> nat
    decreases n,
{
    if n == 0 {
        0
    } else {
        touched(code, e, interval, (n - 1) as nat) + (if is_first_touch(code, e, interval, n - 1) {
            1nat
        } else {
            0nat
        })
    }
}

/// The number of the first `n` encoded bits of `e` that are set.
pub open spec fn weight(code: Trellis, e: Seq<bool>, n: nat) -> nat
    decreases n,
{
    if n == 0 {
        0
    } else {
        weight(code, e, (n - 1) as nat) + (if code.encoded_bit(e, n - 1) {
            1nat
        } else {
            0nat
        })
    }
}

/// A difference between two messages that the decoder has to decide on: it has
/// been seen long enough to be past the traceback, or has come to an end.
pub open spec fn is_decidable(code: Trellis, e: Seq<bool>, r: int) -> bool {
    &&& 0 <= r < e.len()
    &&& e[r]
    &&& r + 6 * code.order <= e.len() || code.state(e) == 0
}

/// The encoding of every such difference is heavier than twice the number of
/// windows that it touches.
pub open spec fn withstands(code: Trellis, interval: int) -> bool {
    forall|e: Seq<bool>, r: int| #[trigger]
        is_decidable(code, e, r) ==> weight(code, e, e.len() * code.rate) > 2 * touched(
            code,
            e,
            interval,
            e.len() * code.rate,
        )
}

/// Some encoded bit of `e` before `k`, in the window of `k`, is set.
pub open spec fn touched_before(code: Trellis, e: Seq<bool>, interval: int, k: int) -> bool {
    exists|j: int|
        0 <= j < k && j / interval == k / interval && #[trigger] code.encoded_bit(e, j)
}

/// Some encoded bit of `e` before `k`, in the window of `k`, is set and was
/// received wrong.
spec fn hit_before(
    code: Trellis,
    e: Seq<bool>,
    sent: Seq<u8>,
    received: Seq<u8>,
    interval: int,
    k: int,
) -> bool {
    exists|j: int|
        0 <= j < k && j / interval == k / interval && #[trigger] code.encoded_bit(e, j) && is_wrong(
            sent,
            received,
            j,
        )
}

/// The number of the first `n` encoded bits of `e` that are set and were received
/// wrong.
spec fn hits(code: Trellis, e: Seq<bool>, sent: Seq<u8>, received: Seq<u8>, n: nat) -> nat
    decreases n,
{
    if n == 0 {
        0
    } else {
        hits(code, e, sent, received, (n - 1) as nat) + (if code.encoded_bit(e, n - 1) && is_wrong(
            sent,
            received,
            n - 1,
        ) {
            1nat
        } else {
            0nat
        })
    }
}

/// No window is hit twice.
proof fn lemma_hits(
    code: Trellis,
    e: Seq<bool>,
    sent: Seq<u8>,
    received: Seq<u8>,
    interval: int,
    n: nat,
    num_bits: int,
)
    requires
        interval > 0,
        n <= num_bits,
        one_per_window(sent, received, interval, num_bits),
    ensures
        hits(code, e, sent, received, n) <= touched(code, e, interval, n),
        touched_before(code, e, interval, n as int) && !hit_before(
            code,
            e,
            sent,
            received,
            interval,
            n as int,
        ) ==> hits(code, e, sent, received, n) < touched(code, e, interval, n),
    decreases n,
{
    if n > 0 {
        let k = n - 1;
        lemma_hits(code, e, sent, received, interval, k as nat, num_bits);
        let set = code.encoded_bit(e, k);
        let wrong = is_wrong(sent, received, k);
        if set && wrong {
            // the only wrong bit of its window
            assert(!hit_before(code, e, sent, received, interval, k)) by {
                if hit_before(code, e, sent, received, interval, k) {
                    let j = choose|j: int|
                        0 <= j < k && j / interval == k / interval && #[trigger] code.encoded_bit(
                            e,
                            j,
                        ) && is_wrong(sent, received, j);
                    assert(is_wrong(sent, received, j) && is_wrong(sent, received, k));
                }
            }
        }
        assert(is_first_touch(code, e, interval, k) == (set && !touched_before(
            code,
            e,
            interval,
            k,
        )));
        if touched_before(code, e, interval, n as int) && !hit_before(
            code,
            e,
            sent,
            received,
            interval,
            n as int,
        ) {
            let j = choose|j: int|
                0 <= j < n && j / interval == n as int / interval && #[trigger] code.encoded_bit(
                    e,
                    j,
                );
            vstd::arithmetic::div_mod::lemma_div_is_ordered(j, k, interval);
            vstd::arithmetic::div_mod::lemma_div_is_ordered(k, n as int, interval);
            assert(k / interval == n as int / interval);
            assert(!hit_before(code, e, sent, received, interval, k)) by {
                if hit_before(code, e, sent, received, interval, k) {
                    let i = choose|i: int|
                        0 <= i < k && i / interval == k / interval && #[trigger] code.encoded_bit(
                            e,
                            i,
                        ) && is_wrong(sent, received, i);
                    assert(0 <= i < n && i / interval == n as int / interval && code.encoded_bit(
                        e,
                        i,
                    ) && is_wrong(sent, received, i));
                }
            }
            assert(!(set && wrong)) by {
                if set && wrong {
                    assert(0 <= k < n && k / interval == n as int / interval && code.encoded_bit(
                        e,
                        k,
                    ) && is_wrong(sent, received, k));
                }
            }
            if j < k {
                assert(touched_before(code, e, interval, k));
            }
        }
    }
}

/// The bits in which two messages differ.
pub open spec fn difference(x: Seq<bool>, y: Seq<bool>) -> Seq<bool> {
    Seq::new(y.len(), |i: int| x[i] != y[i])
}

/// Tapping the register is linear.
pub proof fn lemma_dot_linear(x: Seq<bool>, y: Seq<bool>, e: Seq<bool>, n: nat, p: nat)
    requires
        x.len() == y.len() == e.len(),
        forall|i: int| 0 <= i < e.len() ==> #[trigger] e[i] == (x[i] != y[i]),
    ensures
        dot(window(e, n) as nat, p) == (dot(window(x, n) as nat, p) != dot(
            window(y, n) as nat,
            p,
        )),
    decreases n,
{
    super::trellis::lemma_window_bound(x, n);
    super::trellis::lemma_window_bound(y, n);
    super::trellis::lemma_window_bound(e, n);
    if n == 0 || x.len() == 0 {
        lemma_dot_zero(p);
    } else if p != 0 {
        let m = (n - 1) as nat;
        let (u, v, w) = (x.drop_last(), y.drop_last(), e.drop_last());
        super::trellis::lemma_window_bound(u, m);
        super::trellis::lemma_window_bound(v, m);
        super::trellis::lemma_window_bound(w, m);
        lemma_dot_linear(u, v, w, m, p / 2);
        assert(e.last() == (x.last() != y.last()));
    }
}

/// The encodings differ where the encoding of the difference is set.
proof fn lemma_encoded_linear(code: Trellis, x: Seq<bool>, y: Seq<bool>, k: int)
    requires
        code.valid(),
        y.len() <= x.len(),
        0 <= k < y.len() * code.rate,
    ensures
        code.encoded_bit(difference(x, y), k) == (code.encoded_bit(x, k) != code.encoded_bit(y, k)),
{
    let rate = code.rate as int;
    let (t, j) = (k / rate, k % rate);
    lemma_fundamental_div_mod(k, rate);
    assert(0 <= t < y.len()) by (nonlinear_arith)
        requires
            k == rate * t + j,
            0 <= j < rate,
            0 <= k < y.len() * rate,
    ;
    let e = difference(x, y);
    lemma_dot_linear(
        x.take(t + 1),
        y.take(t + 1),
        e.take(t + 1),
        code.order,
        code.polys[j] as nat,
    );
    lemma_output_bit(code.polys, window(e.take(t + 1), code.order) as nat, code.rate, j as nat);
    lemma_output_bit(code.polys, window(x.take(t + 1), code.order) as nat, code.rate, j as nat);
    lemma_output_bit(code.polys, window(y.take(t + 1), code.order) as nat, code.rate, j as nat);
}

/// The cost of the first `n` encoded bits of a message.
pub open spec fn cost_of_bits(code: Trellis, cost: spec_fn(int, bool) -> nat, y: Seq<bool>, n: nat) -> nat
    decreases n,
{
    if n == 0 {
        0
    } else {
        cost_of_bits(code, cost, y, (n - 1) as nat) + cost(n - 1, code.encoded_bit(y, n - 1))
    }
}

proof fn lemma_step_cost(
    code: Trellis,
    cost: spec_fn(int, bool) -> nat,
    y: Seq<bool>,
    t: int,
    n: nat,
)
    requires
        code.valid(),
        0 <= t < y.len(),
        n <= code.rate,
    ensures
        cost_of_bits(code, cost, y, (t * code.rate + n) as nat) == cost_of_bits(
            code,
            cost,
            y,
            (t * code.rate) as nat,
        ) + dist_upto(cost, t * code.rate, code.output(window(y.take(t + 1), code.order)), n),
    decreases n,
{
    assert(t * code.rate >= 0) by (nonlinear_arith)
        requires
            t >= 0,
    ;
    if n > 0 {
        lemma_step_cost(code, cost, y, t, (n - 1) as nat);
        code.lemma_encoded_index(y, t, n - 1);
    }
}

/// The cost of a path, bit by bit.
pub proof fn lemma_path_cost_of_bits(
    code: Trellis,
    cost: spec_fn(int, bool) -> nat,
    y: Seq<bool>,
    t: int,
)
    requires
        code.valid(),
        0 <= t <= y.len(),
    ensures
        code.path_cost(cost, y.take(t)) == cost_of_bits(code, cost, y, (t * code.rate) as nat),
    decreases t,
{
    if t > 0 {
        lemma_path_cost_of_bits(code, cost, y, t - 1);
        lemma_step_cost(code, cost, y, t - 1, code.rate);
        assert(y.take(t).drop_last() =~= y.take(t - 1));
        assert((t - 1) * code.rate + code.rate == t * code.rate) by (nonlinear_arith);
    } else {
        assert(0 * code.rate == 0);
    }
}

/// What the channel weighs between `x` and `y`, in terms of their difference.
proof fn lemma_counts(
    code: Trellis,
    x: Seq<bool>,
    y: Seq<bool>,
    sent: Seq<u8>,
    received: Seq<u8>,
    n: nat,
)
    requires
        code.valid(),
        y.len() <= x.len(),
        n <= y.len() * code.rate,
        forall|k: int| 0 <= k < n ==> #[trigger] bit_at(sent, k) == code.encoded_bit(x, k),
    ensures
        cost_of_bits(code, differs_from(code, x, None), y, n) == weight(code, difference(x, y), n),
        cost_of_bits(code, lost_by(code, x, hard_cost(received, None)), y, n) == hits(
            code,
            difference(x, y),
            sent,
            received,
            n,
        ),
    decreases n,
{
    if n > 0 {
        lemma_counts(code, x, y, sent, received, (n - 1) as nat);
        lemma_encoded_linear(code, x, y, n - 1);
        assert(bit_at(sent, n - 1) == code.encoded_bit(x, n - 1));
    }
}

/// A block with at most one wrong bit in each window decodes to the message that
/// was encoded, whatever its length, if the code withstands that.
pub proof fn lemma_guard_interval(
    code: Trellis,
    msg: Seq<u8>,
    sent: Seq<u8>,
    received: Seq<u8>,
    interval: int,
    num_encoded_bits: usize,
    before: Seq<u8>,
    after: Seq<u8>,
    res: Result<usize, DecodeError>,
)
    requires
        code.valid(),
        code.order >= 4,
        8 * msg.len() + 2 >= code.order,
        interval > 0,
        withstands(code, interval),
        num_encoded_bits == encoded_len(code.rate as int, code.order as int, msg.len() as int),
        is_encoded(code, msg, sent),
        received.len() == sent.len(),
        one_per_window(sent, received, interval, num_encoded_bits as int),
        before.len() >= msg.len(),
        decode_result(
            code,
            hard_cost(received, None),
            num_encoded_bits,
            bytes_for(num_encoded_bits as int) <= received.len(),
            before,
            after,
            res,
        ),
    ensures
        res matches Ok(n) && n == msg.len(),
        after.take(msg.len() as int) == msg,
        after.skip(msg.len() as int) == before.skip(msg.len() as int),
{
    let cost = hard_cost(received, None);
    let x = code.flushed(bits_of(msg));
    let run = run_for(code, cost, num_encoded_bits as int);
    let head = run.head();
    lemma_costs_bounded(received, None);
    super::laws::lemma_encoded_total(code, msg.len() as int);
    assert(run.total == x.len());
    lemma_zero_window(x, head);
    lemma_window_zero(x, head);
    assert forall|r: int, y: Seq<bool>| 0 <= r < 8 * msg.len() && #[trigger] is_rival(
        run,
        x,
        r,
        y,
    ) implies code.path_cost(lost_by(code, x, cost), y) < code.path_cost(
        held_by(code, x, cost),
        y,
    ) by {
        let e = difference(x, y);
        let bits = y.len() * code.rate;
        let g = run.group();
        lemma_fundamental_div_mod(r, g);
        assert((r / g) * g == g * (r / g)) by (nonlinear_arith);
        assert(seen_for(run, r) <= run.total);
        assert(bits <= x.len() * code.rate) by (nonlinear_arith)
            requires
                bits == y.len() * code.rate,
                y.len() <= x.len(),
        ;
        if y.len() == run.total {
            lemma_window_zero(y, head);
            assert forall|i: int| e.len() - head <= i < e.len() && 0 <= i implies !(
            #[trigger] e[i]) by {
                assert(!x[i] && !y[i]);
            }
            lemma_zero_window(e, head);
        }
        assert(is_decidable(code, e, r));
        assert forall|k: int| 0 <= k < bits implies #[trigger] bit_at(sent, k) == code.encoded_bit(
            x,
            k,
        ) by {}
        lemma_counts(code, x, y, sent, received, bits);
        lemma_hits(code, e, sent, received, interval, bits, num_encoded_bits as int);
        assert(y.take(y.len() as int) =~= y);
        lemma_path_cost_of_bits(code, differs_from(code, x, None), y, y.len() as int);
        lemma_path_cost_of_bits(code, lost_by(code, x, cost), y, y.len() as int);
        lemma_hard_split(code, x, y, received, None);
    }
    lemma_message_corrected(code, cost, msg, num_encoded_bits, before, after, res);
}

/// Flipping with an interval makes one error in each window at most.
pub proof fn lemma_flips_one_per_window(
    sent: Seq<u8>,
    received: Seq<u8>,
    rate: int,
    order: int,
    seed: u64,
    flips: int,
    num_bits: int,
)
    requires
        num_bits <= 8 * sent.len(),
        forall|i: int|
            0 <= i < 8 * sent.len() ==> #[trigger] bit_at(received, i) == (bit_at(sent, i)
                != is_picked(seed, interval_len(rate, order), flips, i)),
    ensures
        one_per_window(sent, received, interval_len(rate, order), num_bits),
{
    let len = interval_len(rate, order);
    assert forall|i: int, j: int|
        0 <= i < j < num_bits && #[trigger] is_wrong(sent, received, i) && #[trigger] is_wrong(
            sent,
            received,
            j,
        ) implies i / len != j / len by {
        assert(bit_at(received, i) == (bit_at(sent, i) != is_picked(seed, len, flips, i)));
        assert(bit_at(received, j) == (bit_at(sent, j) != is_picked(seed, len, flips, j)));
    }
}

/// A block that [`flip_with_interval`](super::sim::flip_with_interval) has flipped
/// bits of decodes to the message that was encoded, whatever its length, if the
/// code withstands that; [`withstands_interval`](super::margin::withstands_interval)
/// decides whether it does.
pub proof fn lemma_flips_recovered(
    code: Trellis,
    msg: Seq<u8>,
    sent: Seq<u8>,
    received: Seq<u8>,
    seed: u64,
    flips: int,
    num_encoded_bits: usize,
    before: Seq<u8>,
    after: Seq<u8>,
    res: Result<usize, DecodeError>,
)
    requires
        code.valid(),
        code.order >= 4,
        8 * msg.len() + 2 >= code.order,
        withstands(code, interval_len(code.rate as int, code.order as int)),
        num_encoded_bits == encoded_len(code.rate as int, code.order as int, msg.len() as int),
        num_encoded_bits <= 8 * sent.len(),
        is_encoded(code, msg, sent),
        received.len() == sent.len(),
        forall|i: int|
            0 <= i < 8 * sent.len() ==> #[trigger] bit_at(received, i) == (bit_at(sent, i)
                != is_picked(
                seed,
                interval_len(code.rate as int, code.order as int),
                flips,
                i,
            )),
        before.len() >= msg.len(),
        decode_result(
            code,
            hard_cost(received, None),
            num_encoded_bits,
            bytes_for(num_encoded_bits as int) <= received.len(),
            before,
            after,
            res,
        ),
    ensures
        res matches Ok(n) && n == msg.len(),
        after.take(msg.len() as int) == msg,
        after.skip(msg.len() as int) == before.skip(msg.len() as int),
{
    let (rate, order) = (code.rate as int, code.order as int);
    let interval = interval_len(rate, order);
    assert(interval > 0) by (nonlinear_arith)
        requires
            interval == 5 * order * rate,
            order >= 4,
            rate >= 1,
    ;
    lemma_flips_one_per_window(
        sent,
        received,
        rate,
        order,
        seed,
        flips,
        num_encoded_bits as int,
    );
    lemma_guard_interval(
        code,
        msg,
        sent,
        received,
        interval,
        num_encoded_bits,
        before,
        after,
        res,
    );
}

/// The weight of a difference is the number of set bits that it puts out, and it touches
/// as many windows as there are set bits without another before them in their window.
pub proof fn lemma_touched_places(code: Trellis, e: Seq<bool>, interval: int, n: nat)
    ensures
        weight(code, e, n) == Seq::new(n, |k: int| k).filter(
            |k: int| code.encoded_bit(e, k),
        ).len(),
        touched(code, e, interval, n) == Seq::new(n, |k: int| k).filter(
            |k: int|
                code.encoded_bit(e, k) && forall|j: int|
                    0 <= j < k && j / interval == k / interval ==> !(#[trigger] code.encoded_bit(
                        e,
                        j,
                    )),
        ).len(),
    decreases n,
{
    let all = Seq::new(n, |k: int| k);
    reveal(Seq::filter);
    if n > 0 {
        lemma_touched_places(code, e, interval, (n - 1) as nat);
        assert(all.drop_last() =~= Seq::new((n - 1) as nat, |k: int| k));
        assert(all.last() == n - 1);
    }
}

/// A code that does not withstand an interval has a difference between two messages
/// that the decoder has to decide on and whose encoding is no heavier than twice the
/// number of windows that it touches.
pub proof fn lemma_falls_short(code: Trellis, interval: int) -> (e: Seq<bool>)
    requires
        code.valid(),
        !withstands(code, interval),
    ensures
        exists|r: int|
            0 <= r < e.len() && #[trigger] e[r] && (r + 6 * code.order <= e.len() || forall|i: int|
                0 <= i < e.len() && e.len() - (code.order - 1) <= i ==> !(#[trigger] e[i])),
        weight(code, e, e.len() * code.rate) <= 2 * touched(
            code,
            e,
            interval,
            e.len() * code.rate,
        ),
{
    let (e, r) = choose|e: Seq<bool>, r: int| #[trigger]
        is_decidable(code, e, r) && !(weight(code, e, e.len() * code.rate) > 2 * touched(
            code,
            e,
            interval,
            e.len() * code.rate,
        ));
    if code.state(e) == 0 {
        super::viterbi::lemma_window_zero(e, (code.order - 1) as nat);
    }
    assert(e[r]);
    e
}

} // verus!
