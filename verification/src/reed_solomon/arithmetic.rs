//! The field, its polynomials and the code by their smallest steps: doubling a byte,
//! adding one factor, appending one byte to a block.

use super::ccsds::{to_conv, to_dual};
use super::code::{lemma_encoding_is_codeword, Code};
use super::decoder::{decode_result, lemma_no_errors, DecodeError};
use super::decoding::{
    error_positions, is_error, lemma_clean_block, lemma_round_trip, roots_below,
};
use super::galois::{
    alpha_pow, gf_div, gf_log, gf_mul, gf_pow, is_primitive, lemma_alpha_distinct, lemma_alpha_period,
    lemma_div, lemma_log, lemma_mul_alpha, lemma_mul_associates, lemma_mul_commutes, lemma_mul_distributes,
    lemma_mul_shift, lemma_mul_zero_one, lemma_xor, mul_x, shift_pow,
};
use super::massey::{lemma_massey_shape, massey};
use super::field::log_sum;
use super::poly_model::{coef, conv, conv_terms, eval_terms, poly_eval, roots_poly};
use super::sums::{gf_sum, lemma_sum_scale, lemma_sum_single, lemma_sum_split};
use vstd::prelude::*;

verus! {

/// A byte doubled as a polynomial: shifted up by one, less the modulus where the shift
/// carries out of the byte.
pub open spec fn doubled(p: u16, a: u8) -> u8 {
    if a >= 128 {
        (((a as u16) << 1u16) ^ p) as u8
    } else {
        ((a as u16) << 1u16) as u8
    }
}

proof fn lemma_doubled(p: u16, a: u8)
    ensures
        mul_x(p, a) == doubled(p, a),
        doubled(p, 1) == 2,
{
    assert(mul_x(p, a) == doubled(p, a) && doubled(p, 1) == 2) by (bit_vector);
}

/// The powers of the primitive element are 1 and its repeated doublings.
pub proof fn lemma_next_power(p: u16, k: nat)
    ensures
        alpha_pow(p, 0) == 1,
        alpha_pow(p, k + 1) == doubled(p, alpha_pow(p, k)),
{
    lemma_doubled(p, alpha_pow(p, k));
}

/// In a field built from a primitive polynomial multiplication goes bit by bit of one
/// factor: nothing times a byte is nothing, an even factor has the other one doubled
/// for it, and an odd factor adds the other one once.
pub proof fn lemma_product_bits(p: u16, a: u8, h: u8)
    requires
        is_primitive(p),
        h < 128,
    ensures
        gf_mul(p, a, 0) == 0,
        gf_mul(p, a, 1) == a,
        gf_mul(p, a, 2) == doubled(p, a),
        gf_mul(p, a, (2 * h) as u8) == gf_mul(p, doubled(p, a), h),
        gf_mul(p, a, (2 * h + 1) as u8) == gf_mul(p, a, (2 * h) as u8) ^ a,
{
    let (even, odd) = ((2 * h) as u8, (2 * h + 1) as u8);
    lemma_mul_zero_one(p, a);
    lemma_two(p, a);
    lemma_two(p, h);
    lemma_mul_commutes(p, h, 2);
    lemma_mul_associates(p, a, 2, h);
    assert(doubled(p, h) == (2 * h) as u8 && (2 * h + 1) as u8 == ((2 * h) as u8) ^ 1u8)
        by (bit_vector)
        requires
            h < 128,
    ;
    lemma_mul_distributes(p, even, 1, a);
}

/// Multiplying by 2 doubles.
proof fn lemma_two(p: u16, a: u8)
    requires
        is_primitive(p),
    ensures
        gf_mul(p, a, 2) == doubled(p, a),
        alpha_pow(p, 1) == 2,
{
    lemma_doubled(p, a);
    lemma_doubled(p, 1);
    assert(alpha_pow(p, 0) == 1);
    assert(alpha_pow(p, 1) == mul_x(p, alpha_pow(p, 0)));
    lemma_log(p, 2);
    lemma_alpha_distinct(p, gf_log(p, 2), 1);
    lemma_mul_shift(p, a, 2);
    assert(shift_pow(p, a, 0) == a);
    assert(shift_pow(p, a, 1) == mul_x(p, shift_pow(p, a, 0)));
}

/// A polynomial of degree eight is primitive if and only if the first 255 powers of
/// the primitive element, from the first on, are all different.
pub proof fn lemma_primitive_differ(p: u16)
    requires
        0x100 <= p < 0x200,
    ensures
        is_primitive(p) <==> forall|i: nat, j: nat|
            1 <= i < j <= 255 ==> #[trigger] alpha_pow(p, i) != #[trigger] alpha_pow(p, j),
{
    if is_primitive(p) {
        assert forall|i: nat, j: nat| 1 <= i < j <= 255 implies #[trigger] alpha_pow(p, i)
            != #[trigger] alpha_pow(p, j) by {
            if alpha_pow(p, i) == alpha_pow(p, j) {
                lemma_alpha_distinct(p, i, j);
            }
        }
    }
    if forall|i: nat, j: nat|
        1 <= i < j <= 255 ==> #[trigger] alpha_pow(p, i) != #[trigger] alpha_pow(p, j) {
        super::trypoly::lemma_distinct_is_primitive(p);
    }
}

/// Powers of 2 in the field are the powers of the primitive element, and repeat after
/// 255 steps.
pub proof fn lemma_powers_of_two(p: u16, n: nat)
    requires
        is_primitive(p),
    ensures
        gf_pow(p, 2, n) == alpha_pow(p, n),
        alpha_pow(p, n) == alpha_pow(p, n % 255),
    decreases n,
{
    lemma_alpha_period(p, n);
    if n > 0 {
        let m = (n - 1) as nat;
        lemma_powers_of_two(p, m);
        lemma_two(p, 1);
        lemma_mul_alpha(p, 1, m);
        assert(1 + m == n);
    } else {
        assert(alpha_pow(p, 0) == 1);
    }
}

/// The roots of a generator are powers of 2: the first root's index and those that
/// follow it, each times the gap.
pub proof fn lemma_root(code: Code, i: nat)
    requires
        code.valid(),
    ensures
        code.root(i as int) == gf_pow(code.modulus, 2, code.gap * (code.first + i)),
        code.root(i as int + 1) == gf_mul(
            code.modulus,
            gf_pow(code.modulus, 2, code.gap),
            code.root(i as int),
        ),
{
    let p = code.modulus;
    let n = code.gap * (code.first + i);
    let m = code.gap * (code.first + i + 1);
    assert(code.gap * (i + code.first) == n) by (nonlinear_arith)
        requires
            n == code.gap * (code.first + i),
    ;
    assert(code.gap * (i + 1 + code.first) == m && m == code.gap + n) by (nonlinear_arith)
        requires
            n == code.gap * (code.first + i),
            m == code.gap * (code.first + i + 1),
    ;
    lemma_powers_of_two(p, n);
    lemma_powers_of_two(p, m);
    lemma_powers_of_two(p, code.gap);
    lemma_mul_alpha(p, code.gap, n);
    assert(code.root(i as int) == alpha_pow(p, n % 255));
    assert(code.root(i as int + 1) == alpha_pow(p, m % 255));
}

/// A polynomial's value grows by one coefficient at the low end: what was there is
/// multiplied by the point.
pub proof fn lemma_horner(p: u16, a: u8, c: Seq<u8>, x: u8)
    requires
        is_primitive(p),
    ensures
        poly_eval(p, Seq::<u8>::empty(), x) == 0,
        poly_eval(p, seq![a] + c, x) == a ^ gf_mul(p, x, poly_eval(p, c, x)),
{
    let longer = seq![a] + c;
    let f = eval_terms(p, longer, x);
    let g = eval_terms(p, c, x);
    let h = |i: int| gf_mul(p, x, g(i));
    assert forall|i: int| 0 <= i < c.len() implies #[trigger] h(i) == f(1 + i) by {
        let y = gf_pow(p, x, i as nat);
        assert(coef(longer, 1 + i) == coef(c, i));
        assert(gf_pow(p, x, (1 + i) as nat) == gf_mul(p, x, y));
        lemma_mul_associates(p, x, coef(c, i), y);
        lemma_mul_commutes(p, x, coef(c, i));
        lemma_mul_associates(p, coef(c, i), x, y);
    }
    lemma_sum_split(1, c.len(), f, h);
    lemma_sum_scale(p, c.len(), x, g, h);
    assert(gf_sum(0, f) == 0);
    assert(gf_sum(1, f) == gf_sum(0, f) ^ f(0));
    assert(gf_pow(p, x, 0) == 1);
    assert(coef(longer, 0) == a);
    lemma_mul_zero_one(p, a);
    lemma_xor(a, 0, 0);
    assert(longer.len() == 1 + c.len());
}

/// A block's value at a root of the generator grows with each byte at its end: what
/// was there is multiplied by the root, and the byte is added. Nothing has the value 0.
pub proof fn lemma_next_syndrome(code: Code, block: Seq<u8>, b: u8, i: int)
    requires
        code.valid(),
    ensures
        code.syndrome(Seq::<u8>::empty(), i) == 0,
        code.syndrome(block.push(b), i) == gf_mul(
            code.modulus,
            code.root(i),
            code.syndrome(block, i),
        ) ^ b,
{
    let p = code.modulus;
    lemma_horner(p, b, block.reverse(), code.root(i));
    assert(block.push(b).reverse() =~= seq![b] + block.reverse());
    assert(Seq::<u8>::empty().reverse() =~= Seq::<u8>::empty());
    lemma_xor(b, gf_mul(p, code.root(i), code.syndrome(block, i)), 0);
}

/// The parameters of the CCSDS code.
pub proof fn lemma_ccsds_parameters()
    ensures
        Code::ccsds().modulus == 0x187,
        Code::ccsds().first == 112,
        Code::ccsds().gap == 11,
        Code::ccsds().parity == 32,
{
}

/// The basis maps are linear, so that the images of the eight single bits settle them.
pub proof fn lemma_maps_linear(a: u8, b: u8)
    ensures
        to_dual(a ^ b) == to_dual(a) ^ to_dual(b),
        to_conv(a ^ b) == to_conv(a) ^ to_conv(b),
        to_dual(0x01) == 0x7b,
        to_dual(0x02) == 0xaf,
        to_dual(0x04) == 0x99,
        to_dual(0x08) == 0xfa,
        to_dual(0x10) == 0x86,
        to_dual(0x20) == 0xec,
        to_dual(0x40) == 0xef,
        to_dual(0x80) == 0x8d,
{
    assert(to_dual(a ^ b) == to_dual(a) ^ to_dual(b) && to_conv(a ^ b) == to_conv(a) ^ to_conv(b)
        && to_dual(0x01) == 0x7b && to_dual(0x02) == 0xaf && to_dual(0x04) == 0x99 && to_dual(0x08)
        == 0xfa && to_dual(0x10) == 0x86 && to_dual(0x20) == 0xec && to_dual(0x40) == 0xef
        && to_dual(0x80) == 0x8d) by (bit_vector);
}

/// A decode without erasures finds nothing to correct if and only if the block
/// vanishes at every root of the generator; the block's own bytes are then the
/// message. It never corrects more bytes than there are parity bytes.
pub proof fn lemma_nothing_to_correct(
    code: Code,
    block: Seq<u8>,
    before: Seq<u8>,
    after: Seq<u8>,
    res: Result<usize, DecodeError>,
)
    requires
        code.valid(),
        code.parity <= block.len() <= 255,
        after.len() == before.len() >= block.len() - code.parity,
        decode_result(code, block, Seq::<u8>::empty(), before, after, res),
    ensures
        res == Ok::<usize, DecodeError>(0usize) <==> forall|i: int|
            0 <= i < code.parity ==> #[trigger] code.syndrome(block, i) == 0,
        res == Ok::<usize, DecodeError>(0usize) ==> forall|i: int|
            0 <= i < block.len() - code.parity ==> #[trigger] after[i] == block[i],
        res matches Ok(n) ==> n <= code.parity,
        res is Err ==> res == Err::<usize, DecodeError>(DecodeError::TooManyErrors) && after
            == before,
{
    let none = Seq::<u8>::empty();
    let p = code.modulus;
    let s = code.syndromes(block);
    let len = block.len() - code.parity;
    let erased = code.erasure_roots(block.len() as int, none);
    assert(erased =~= none);
    let clean = forall|i: int| 0 <= i < code.parity ==> #[trigger] s[i] == 0;
    assert(clean <==> forall|i: int|
        0 <= i < code.parity ==> #[trigger] code.syndrome(block, i) == 0) by {
        assert forall|i: int| 0 <= i < code.parity implies s[i] == #[trigger] code.syndrome(
            block,
            i,
        ) by {}
        if clean {
            assert forall|i: int| 0 <= i < code.parity implies #[trigger] code.syndrome(block, i)
                == 0 by {
                assert(s[i] == 0);
            }
        }
        if forall|i: int| 0 <= i < code.parity ==> #[trigger] code.syndrome(block, i) == 0 {
            assert forall|i: int| 0 <= i < code.parity implies #[trigger] s[i] == 0 by {
                assert(code.syndrome(block, i) == 0);
            }
        }
    }
    if clean {
        lemma_clean_block(code, block, none);
        assert forall|i: int| 0 <= i < len implies #[trigger] after[i] == block[i] by {
            assert(after.take(len)[i] == block.take(len)[i]);
        }
    } else {
        let st = massey(p, s, code.parity, code.parity);
        lemma_massey_shape(p, s, code.parity, code.parity);
        assert(code.error_syndromes(s, erased) == s);
        let c = code.error_locator(s, erased);
        assert(c.len() == st.length + 1);
        let found = roots_below(p, c, 256);
        if found.len() + 1 == c.len() {
            assert((erased + found).len() == st.length);
            if st.length == 0 {
                lemma_no_errors(code, s);
            }
        }
    }
}

/// An encoding starts with its message and vanishes at every root of the generator.
pub proof fn lemma_encoding_vanishes(code: Code, msg: Seq<u8>, block: Seq<u8>, i: int)
    requires
        code.valid(),
        code.is_encoding(msg, block),
        block.len() <= 255,
        0 <= i < code.parity,
    ensures
        block.len() == msg.len() + code.parity,
        forall|k: int| 0 <= k < msg.len() ==> #[trigger] block[k] == msg[k],
        code.syndrome(block, i) == 0,
{
    lemma_encoding_is_codeword(code, msg, block);
    assert forall|k: int| 0 <= k < msg.len() implies #[trigger] block[k] == msg[k] by {
        assert(block.take(msg.len() as int)[k] == msg[k]);
    }
}

/// Raising an element to a power through its logarithm multiplies it by itself.
pub proof fn lemma_power_by_log(p: u16, x: u8, n: nat)
    requires
        is_primitive(p),
        x != 0,
    ensures
        gf_pow(p, x, n) == alpha_pow(p, ((gf_log(p, x) * n) % 255) as nat),
    decreases n,
{
    let log = gf_log(p, x);
    lemma_log(p, x);
    lemma_alpha_period(p, log * n);
    if n == 0 {
        assert(log * 0 == 0);
        assert(alpha_pow(p, 0) == 1);
    } else {
        let m = (n - 1) as nat;
        lemma_power_by_log(p, x, m);
        lemma_alpha_period(p, log * m);
        lemma_mul_alpha(p, log, log * m);
        assert(log + log * m == log * n) by (nonlinear_arith)
            requires
                m + 1 == n,
        ;
    }
}

/// No other block of its length does.
pub proof fn lemma_encoding_only(code: Code, msg: Seq<u8>, sent: Seq<u8>, block: Seq<u8>)
    requires
        code.valid(),
        code.gap < 256,
        code.gap % 3 != 0,
        code.gap % 5 != 0,
        code.gap % 17 != 0,
        code.is_encoding(msg, sent),
        sent.len() <= 255,
        block.len() == sent.len(),
        forall|k: int| 0 <= k < msg.len() ==> #[trigger] block[k] == msg[k],
        forall|i: int| 0 <= i < code.parity ==> #[trigger] code.syndrome(block, i) == 0,
    ensures
        block == sent,
{
    // take the parity for erased: nothing is to be corrected, so nothing is wrong
    let n = msg.len() as int;
    let erasures = Seq::new(code.parity, |j: int| (n + j) as u8);
    lemma_encoding_vanishes(code, msg, sent, 0);
    assert forall|i: int, j: int| 0 <= i < j < erasures.len() implies #[trigger] erasures[i]
        != #[trigger] erasures[j] by {
        assert(erasures[i] == n + i && erasures[j] == n + j);
    }
    assert forall|i: int| 0 <= i < block.len() implies !#[trigger] is_error(
        sent,
        block,
        erasures,
        i,
    ) by {
        if i >= n {
            assert(erasures[i - n] == i as u8);
            assert(erasures.contains(i as u8));
        } else {
            assert(sent[i] == msg[i]);
        }
    }
    lemma_no_error_positions(sent, block, erasures, block.len());
    lemma_round_trip(code, msg, sent, block, erasures);
    lemma_clean_block(code, block, erasures);
}

proof fn lemma_no_error_positions(sent: Seq<u8>, block: Seq<u8>, erasures: Seq<u8>, n: nat)
    requires
        forall|i: int| 0 <= i < n ==> !#[trigger] is_error(sent, block, erasures, i),
    ensures
        error_positions(sent, block, erasures, n).len() == 0,
    decreases n,
{
    if n > 0 {
        lemma_no_error_positions(sent, block, erasures, (n - 1) as nat);
        assert(!is_error(sent, block, erasures, n - 1));
    }
}

/// Adding and subtracting logarithms multiplies and divides.
pub proof fn lemma_log_arithmetic(p: u16, l: u8, r: u8)
    requires
        is_primitive(p),
    ensures
        alpha_pow(p, log_sum(l as int, r as int) as nat) == gf_mul(
            p,
            alpha_pow(p, l as nat),
            alpha_pow(p, r as nat),
        ),
        gf_mul(p, alpha_pow(p, log_sum(l as int, 255 - r) as nat), alpha_pow(p, r as nat))
            == alpha_pow(p, l as nat),
        0 <= log_sum(l as int, r as int) <= 255,
        0 <= log_sum(l as int, 255 - r) <= 255,
{
    let (a, b) = (log_sum(l as int, r as int) as nat, log_sum(l as int, 255 - r) as nat);
    lemma_mul_alpha(p, l as nat, r as nat);
    lemma_mul_alpha(p, b, r as nat);
    lemma_alpha_period(p, a);
    lemma_alpha_period(p, l as nat);
    assert(l as nat + r as nat == a || l as nat + r as nat == a + 255);
    assert(b + r as nat == l as nat || b + r as nat == l as nat + 255);
}

/// A negative power is the reciprocal of the positive one.
pub proof fn lemma_negative_power(p: u16, x: u8, n: nat)
    requires
        is_primitive(p),
        x != 0,
    ensures
        gf_mul(p, alpha_pow(p, ((gf_log(p, x) * -(n as int)) % 255) as nat), gf_pow(p, x, n)) == 1,
{
    let log = gf_log(p, x);
    let (a, b) = (log * -(n as int), log * (n as int));
    assert(a == -b) by (nonlinear_arith)
        requires
            a == log * -(n as int),
            b == log * (n as int),
    ;
    lemma_power_by_log(p, x, n);
    let (i, j) = ((a % 255) as nat, (b % 255) as nat);
    lemma_mul_alpha(p, i, j);
    lemma_alpha_period(p, 0);
    lemma_alpha_period(p, i + j);
    assert((i + j) % 255 == 0);
    assert(alpha_pow(p, 0) == 1);
}

/// The product of linear factors has one coefficient more than there are roots, and its
/// highest is 1.
pub proof fn lemma_factors_monic(p: u16, roots: Seq<u8>)
    requires
        is_primitive(p),
    ensures
        roots_poly(p, roots).len() == roots.len() + 1,
        roots_poly(p, roots).last() == 1,
    decreases roots.len(),
{
    if roots.len() > 0 {
        let rest = roots_poly(p, roots.drop_last());
        let factor = seq![roots.last(), 1u8];
        lemma_factors_monic(p, roots.drop_last());
        let k = roots.len() as int;
        let f = conv_terms(p, factor, rest, k);
        assert forall|i: int| 0 <= i < k + 1 && i != 1 implies #[trigger] f(i) == 0 by {
            lemma_mul_zero_one(p, coef(factor, i));
            lemma_mul_zero_one(p, coef(rest, k - i));
        }
        lemma_sum_single((k + 1) as nat, 1, f);
        lemma_mul_zero_one(p, 1);
        assert(roots_poly(p, roots)[k] == conv(p, factor, rest, k));
    }
}

/// Nothing divided by anything, and anything divided by nothing, is 0; what a quotient is
/// otherwise, multiplying by the divisor shows. Raised through its logarithm, 0 gives 1.
pub proof fn lemma_quotient(p: u16, a: u8, b: u8, n: int)
    requires
        is_primitive(p),
    ensures
        gf_div(p, a, 0) == 0,
        gf_div(p, 0, b) == 0,
        b != 0 ==> gf_mul(p, gf_div(p, a, b), b) == a,
        alpha_pow(p, ((gf_log(p, 0) * n) % 255) as nat) == 1,
{
    reveal(gf_div);
    lemma_log(p, 0);
    assert(0 * n == 0);
    assert(alpha_pow(p, 0) == 1);
    if b != 0 {
        lemma_div(p, a, b);
    }
}

} // verus!
