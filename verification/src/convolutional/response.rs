//! What the encoder puts out, in terms of the bytes that go in and the taps of the
//! polynomials.
//!
//! A message with a single set bit shows each polynomial's taps, newest first, and
//! the encoding of a sum of messages is the sum of their encodings. The two
//! together say what every message is encoded to.

use super::bit::{bit_at, bits_of, byte_bit};
use super::encoder::{encoded_len, is_encoded};
use super::error::bytes_for;
use super::guard::lemma_dot_linear;
use super::laws::lemma_bytes_from_bits;
use super::trellis::{bit_value, dot, lemma_output_bit, nat_bit, window, Trellis};
use super::viterbi::lemma_zero_window;
use vstd::arithmetic::div_mod::{lemma_fundamental_div_mod, lemma_fundamental_div_mod_converse};
use vstd::arithmetic::power2::{lemma2_to64, lemma_pow2_unfold, pow2};
use vstd::prelude::*;

verus! {

/// A byte of a packed stream is made of its eight bits, the first of them most
/// significant.
pub proof fn lemma_byte_of_bits(s: Seq<u8>, k: int)
    requires
        0 <= k < s.len(),
    ensures
        s[k] == 128 * bit_value(bit_at(s, 8 * k)) + 64 * bit_value(bit_at(s, 8 * k + 1)) + 32
            * bit_value(bit_at(s, 8 * k + 2)) + 16 * bit_value(bit_at(s, 8 * k + 3)) + 8
            * bit_value(bit_at(s, 8 * k + 4)) + 4 * bit_value(bit_at(s, 8 * k + 5)) + 2
            * bit_value(bit_at(s, 8 * k + 6)) + bit_value(bit_at(s, 8 * k + 7)),
{
    let b = s[k];
    assert forall|i: int| 0 <= i < 8 implies #[trigger] bit_at(s, 8 * k + i) == byte_bit(b, i) by {
        assert((8 * k + i) / 8 == k && (8 * k + i) % 8 == i);
    }
    assert(bit_at(s, 8 * k + 0) == byte_bit(b, 0));
    assert(b == 128 * ((b >> 7u8) & 1u8) + 64 * ((b >> 6u8) & 1u8) + 32 * ((b >> 5u8) & 1u8) + 16
        * ((b >> 4u8) & 1u8) + 8 * ((b >> 3u8) & 1u8) + 4 * ((b >> 2u8) & 1u8) + 2 * ((b >> 1u8)
        & 1u8) + ((b >> 0u8) & 1u8) && (b >> 7u8) & 1u8 <= 1 && (b >> 6u8) & 1u8 <= 1 && (b >> 5u8)
        & 1u8 <= 1 && (b >> 4u8) & 1u8 <= 1 && (b >> 3u8) & 1u8 <= 1 && (b >> 2u8) & 1u8 <= 1 && (b
        >> 1u8) & 1u8 <= 1 && (b >> 0u8) & 1u8 <= 1) by (bit_vector);
}

/// Shifting and halving find the same bit.
proof fn lemma_tap(p: u16, a: nat)
    requires
        a < 16,
    ensures
        nat_bit(p as nat, a) == ((p >> (a as u16)) & 1u16 == 1u16),
    decreases a,
{
    let k = a as u16;
    let i = if k > 0 {
        (k - 1) as u16
    } else {
        0u16
    };
    assert((p >> 0u16) & 1u16 == p % 2 && (k > 0 ==> (p >> k) & 1u16 == ((p / 2) >> i) & 1u16))
        by (bit_vector)
        requires
            k < 16,
            k > 0 ==> i == k - 1,
    ;
    if a > 0 {
        lemma_tap(p / 2, (a - 1) as nat);
    }
}

/// A register with one set bit shows one tap.
proof fn lemma_dot_one(a: nat, p: nat)
    ensures
        dot(pow2(a), p) == nat_bit(p, a),
    decreases a,
{
    lemma2_to64();
    if p == 0 {
        super::channel::lemma_zero_bit(a);
    } else if a == 0 {
        super::util::lemma_dot_zero(p / 2);
    } else {
        lemma_pow2_unfold(a);
        lemma_dot_one((a - 1) as nat, p / 2);
        assert(pow2(a) % 2 == 0 && pow2(a) / 2 == pow2((a - 1) as nat));
    }
}

/// The window over a single set bit, `a` places before the newest.
proof fn lemma_window_one(x: Seq<bool>, p: int, n: nat)
    requires
        0 <= p < x.len(),
        x[p],
        forall|i: int| 0 <= i < x.len() && i != p ==> !(#[trigger] x[i]),
    ensures
        x.len() - 1 - p < n ==> window(x, n) == pow2((x.len() - 1 - p) as nat),
        x.len() - 1 - p >= n ==> window(x, n) == 0,
    decreases x.len(),
{
    lemma2_to64();
    if n > 0 {
        let y = x.drop_last();
        let m = (n - 1) as nat;
        if p == x.len() - 1 {
            assert forall|i: int| y.len() - m <= i < y.len() && 0 <= i implies !(
            #[trigger] y[i]) by {
                assert(!x[i]);
            }
            lemma_zero_window(y, m);
        } else {
            assert(y[p] == x[p]);
            assert forall|i: int| 0 <= i < y.len() && i != p implies !(#[trigger] y[i]) by {
                assert(!x[i]);
            }
            lemma_window_one(y, p, m);
            assert(!x[x.len() - 1]);
            lemma_pow2_unfold((x.len() - 1 - p) as nat);
        }
    }
}

/// A single set bit of the input shows the taps of each polynomial: `a` steps
/// later, encoded bit `j` of the step is tap `a` of polynomial `j`.
pub proof fn lemma_tap_response(code: Trellis, x: Seq<bool>, p: int, t: int, j: int)
    requires
        1 <= code.order <= 16,
        code.polys.len() == code.rate,
        0 <= j < code.rate,
        0 <= t < x.len(),
        0 <= p < x.len(),
        x[p],
        forall|i: int| 0 <= i < x.len() && i != p ==> !(#[trigger] x[i]),
    ensures
        code.encoded_bit(x, t * code.rate + j) == (p <= t && t - p < code.order && (code.polys[j]
            >> ((t - p) as u16)) & 1u16 == 1u16),
{
    let rate = code.rate as int;
    lemma_fundamental_div_mod_converse(t * rate + j, rate, t, j);
    let y = x.take(t + 1);
    let reg = window(y, code.order);
    if p <= t {
        assert(y[p] == x[p]);
        assert forall|i: int| 0 <= i < y.len() && i != p implies !(#[trigger] y[i]) by {
            assert(!x[i]);
        }
        lemma_window_one(y, p, code.order);
    } else {
        assert forall|i: int| y.len() - code.order <= i < y.len() && 0 <= i implies !(
        #[trigger] y[i]) by {
            assert(!x[i]);
        }
        lemma_zero_window(y, code.order);
    }
    lemma_output_bit(code.polys, reg as nat, code.rate, j as nat);
    if p <= t && t - p < code.order {
        let a = (t - p) as nat;
        lemma_dot_one(a, code.polys[j] as nat);
        lemma_tap(code.polys[j], a);
    } else {
        super::util::lemma_dot_zero(code.polys[j] as nat);
    }
}

/// The encoding of a sum is the sum of the encodings.
pub proof fn lemma_sum_response(
    code: Trellis,
    x: Seq<bool>,
    y: Seq<bool>,
    e: Seq<bool>,
    k: int,
)
    requires
        code.rate >= 1,
        x.len() == y.len() == e.len(),
        forall|i: int| 0 <= i < e.len() ==> #[trigger] e[i] == (x[i] != y[i]),
        0 <= k < e.len() * code.rate,
    ensures
        code.encoded_bit(e, k) == (code.encoded_bit(x, k) != code.encoded_bit(y, k)),
{
    let rate = code.rate as int;
    let (t, j) = (k / rate, k % rate);
    lemma_fundamental_div_mod(k, rate);
    assert(0 <= t < e.len()) by (nonlinear_arith)
        requires
            k == rate * t + j,
            0 <= j < rate,
            0 <= k < e.len() * rate,
    ;
    let (u, v, w) = (x.take(t + 1), y.take(t + 1), e.take(t + 1));
    assert forall|i: int| 0 <= i < w.len() implies #[trigger] w[i] == (u[i] != v[i]) by {
        assert(e[i] == (x[i] != y[i]));
    }
    lemma_dot_linear(u, v, w, code.order, code.polys[j] as nat);
    lemma_output_bit(code.polys, window(u, code.order) as nat, code.rate, j as nat);
    lemma_output_bit(code.polys, window(v, code.order) as nat, code.rate, j as nat);
    lemma_output_bit(code.polys, window(w, code.order) as nat, code.rate, j as nat);
}

/// A message with a single set bit, `p` bits from its start, is encoded to the taps
/// of the polynomials: `a` steps later, for `a` below the order, encoded bit `j` of
/// the step is bit `a` of polynomial `j`. Everything else is zero, the padding of
/// the last byte too.
pub proof fn lemma_one_bit_encoded(code: Trellis, msg: Seq<u8>, block: Seq<u8>, p: int, k: int)
    requires
        1 <= code.order <= 16,
        1 <= code.rate,
        code.polys.len() == code.rate,
        is_encoded(code, msg, block),
        0 <= p < 8 * msg.len(),
        forall|i: int|
            0 <= i < msg.len() ==> #[trigger] msg[i] == if i == p / 8 {
                0x80u8 >> ((p % 8) as u8)
            } else {
                0u8
            },
        0 <= k,
        k < 8 * ((code.rate * (8 * msg.len() + code.order + 1) + 7) / 8),
    ensures
        (code.rate * (8 * msg.len() + code.order + 1) + 7) / 8 <= block.len(),
        ((block[k / 8] >> ((7 - k % 8) as u8)) & 1u8 == 1u8) == ({
            let a = k / (code.rate as int) - p;
            let poly = code.polys[k % (code.rate as int)];
            0 <= a < code.order && (poly >> (a as u16)) & 1u16 == 1u16
        }),
{
    let rate = code.rate as int;
    let steps = (8 * msg.len() + code.order + 1) as int;
    let bits = rate * steps;
    let x = code.flushed(bits_of(msg));
    assert(x.len() == steps);
    assert forall|i: int| 0 <= i < 8 * msg.len() implies #[trigger] bit_at(msg, i) == (i == p) by {
        lemma_single(i, p);
        assert(msg[i / 8] == if i / 8 == p / 8 {
            0x80u8 >> ((p % 8) as u8)
        } else {
            0u8
        });
    }
    assert forall|i: int| 0 <= i < x.len() implies #[trigger] x[i] == (i == p) by {
        if i < 8 * msg.len() {
            assert(x[i] == bit_at(msg, i));
        }
    }
    assert(bit_at(block, k) == (k < bits && code.encoded_bit(x, k)));
    let (t, j) = (k / rate, k % rate);
    lemma_fundamental_div_mod(k, rate);
    assert(rate * t == t * rate) by (nonlinear_arith);
    if k < bits {
        assert(0 <= t < steps) by (nonlinear_arith)
            requires
                k == rate * t + j,
                0 <= j < rate,
                0 <= k < rate * steps,
        ;
        lemma_tap_response(code, x, p, t, j);
    } else {
        // past the end, where the last tap has left the register
        assert(t >= steps) by (nonlinear_arith)
            requires
                k == rate * t + j,
                0 <= j < rate,
                k >= rate * steps,
        ;
    }
}

/// A byte with one set bit.
proof fn lemma_single(i: int, p: int)
    requires
        0 <= i,
        0 <= p,
    ensures
        byte_bit(0x80u8 >> ((p % 8) as u8), i % 8) == (i % 8 == p % 8),
        !byte_bit(0u8, i % 8),
{
    let (a, b) = ((i % 8) as u8, (p % 8) as u8);
    let c = (7 - a) as u8;
    assert((((0x80u8 >> b) >> c) & 1u8 == 1u8) == (a == b) && (0u8 >> c) & 1u8 == 0u8)
        by (bit_vector)
        requires
            a < 8,
            b < 8,
            c == 7 - a,
    ;
}

/// Exclusive-or, bit by bit.
proof fn lemma_xor_bits(a: u8, b: u8, i: int)
    requires
        0 <= i < 8,
    ensures
        byte_bit(a ^ b, i) == (byte_bit(a, i) != byte_bit(b, i)),
{
    let c = (7 - i) as u8;
    assert(((((a ^ b) >> c) & 1u8 == 1u8)) == (((a >> c) & 1u8 == 1u8) != ((b >> c) & 1u8 == 1u8)))
        by (bit_vector)
        requires
            c < 8,
    ;
}

/// The encoding of the exclusive-or of two messages is the exclusive-or of their
/// encodings, byte by byte.
pub proof fn lemma_encodings_add(
    code: Trellis,
    a: Seq<u8>,
    b: Seq<u8>,
    c: Seq<u8>,
    block_a: Seq<u8>,
    block_b: Seq<u8>,
    block_c: Seq<u8>,
    k: int,
)
    requires
        code.rate >= 1,
        a.len() == b.len() == c.len(),
        forall|i: int| 0 <= i < c.len() ==> #[trigger] c[i] == a[i] ^ b[i],
        is_encoded(code, a, block_a),
        is_encoded(code, b, block_b),
        is_encoded(code, c, block_c),
        0 <= k < (code.rate * (8 * c.len() + code.order + 1) + 7) / 8,
    ensures
        block_c[k] == block_a[k] ^ block_b[k],
{
    let bits = encoded_len(code.rate as int, code.order as int, c.len() as int);
    let (x, y, e) = (code.flushed(bits_of(a)), code.flushed(bits_of(b)), code.flushed(bits_of(c)));
    assert forall|i: int| 0 <= i < e.len() implies #[trigger] e[i] == (x[i] != y[i]) by {
        if i < 8 * c.len() {
            assert(c[i / 8] == a[i / 8] ^ b[i / 8]);
            lemma_xor_bits(a[i / 8], b[i / 8], i % 8);
            assert(e[i] == bit_at(c, i) && x[i] == bit_at(a, i) && y[i] == bit_at(b, i));
        }
    }
    assert(e.len() * code.rate == bits) by (nonlinear_arith)
        requires
            e.len() == 8 * c.len() + code.order + 1,
            bits == code.rate * (8 * c.len() + code.order + 1),
    ;
    let (u, v) = (seq![block_c[k]], seq![block_a[k] ^ block_b[k]]);
    assert forall|i: int| 0 <= i < 8 * u.len() implies #[trigger] bit_at(u, i) == bit_at(v, i) by {
        let at = 8 * k + i;
        assert(at / 8 == k && at % 8 == i && i / 8 == 0 && i % 8 == i);
        assert(at < 8 * bytes_for(bits));
        assert(bit_at(block_c, at) == (at < bits && code.encoded_bit(e, at)));
        assert(bit_at(block_a, at) == (at < bits && code.encoded_bit(x, at)));
        assert(bit_at(block_b, at) == (at < bits && code.encoded_bit(y, at)));
        if at < bits {
            lemma_sum_response(code, x, y, e, at);
        }
        lemma_xor_bits(block_a[k], block_b[k], i);
    }
    lemma_bytes_from_bits(u, v);
    assert(u[0] == v[0]);
}

} // verus!
