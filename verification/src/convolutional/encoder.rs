//! Convolutional encoder.

use super::bit::{bit_at, bits_of, lemma_low_bit, low_bit, BitReader, BitWriter};
use super::error::{bytes_for, div_ceil_8, EncodeError};
use super::trellis::{
    bit_value, lemma_output_bound, lemma_window_bound, lemma_window_top, window, Trellis,
};
use super::util;
use super::util::lemma_pow2_16;
use vstd::arithmetic::power2::{lemma2_to64, lemma_pow2_strictly_increases, lemma_pow2_unfold, pow2};
use vstd::prelude::*;

verus! {

/// A convolutional encoder for a given `(rate, order, polynomials)`.
///
/// The `rate` is the inverse code rate: a rate-1/2 code has `rate == 2` and emits
/// 2 output bits per input bit. The `order` is the constraint length, the number
/// of bits in the shift register. The `polys` are the generator polynomials, one
/// per output bit, in the octal convention of the literature. For example, the
/// canonical rate-1/2, order-7 NASA code uses `[0o161, 0o127]`.
#[derive(Debug, Clone)]
pub struct Encoder {
    rate: u32,
    order: u32,
    polys: Vec<u16>,
    poly_table: Vec<u16>,
}

/// The encoded length in bits of a message of `len` bytes, with the `order + 1`
/// flush bits.
pub open spec fn encoded_len(rate: int, order: int, len: int) -> int {
    rate * (8 * len + order + 1)
}

/// `block` starts with the encoded bits of `msg`, padded with zeros to a whole
/// byte.
pub open spec fn is_encoded(code: Trellis, msg: Seq<u8>, block: Seq<u8>) -> bool {
    let bits = encoded_len(code.rate as int, code.order as int, msg.len() as int);
    &&& bytes_for(bits) <= block.len()
    &&& forall|k: int|
        0 <= k < 8 * bytes_for(bits) ==> #[trigger] bit_at(block, k) == (k < bits
            && code.encoded_bit(code.flushed(bits_of(msg)), k))
}

/// One shift of the register.
pub proof fn lemma_register_shift(x: Seq<bool>, n: nat)
    requires
        x.len() > 0,
        n > 0,
    ensures
        (2 * window(x.drop_last(), n) + bit_value(x.last())) % (pow2(n) as int) == window(x, n),
{
    let y = x.drop_last();
    let m = (n - 1) as nat;
    lemma_window_top(y, m);
    lemma_window_bound(y, m);
    lemma_window_bound(x, n);
    lemma_pow2_unfold(n);
    let top = bit_value(y.len() > m && y[y.len() - 1 - m]);
    let low = window(x, n);
    assert(2 * (pow2(m) * top) == pow2(n) * top) by (nonlinear_arith)
        requires
            pow2(n) == 2 * pow2(m),
    ;
    assert(2 * window(y, n) + bit_value(x.last()) == low + pow2(n) * top);
    vstd::arithmetic::div_mod::lemma_mod_multiples_vanish(top, low, pow2(n) as int);
    vstd::arithmetic::div_mod::lemma_small_mod(low as nat, pow2(n));
}

impl Encoder {
    /// The code that this encoder encodes with.
    pub closed spec fn code(self) -> Trellis {
        Trellis { rate: self.rate as nat, order: self.order as nat, polys: self.polys@ }
    }

    /// The table belongs to the code.
    pub closed spec fn wf(self) -> bool {
        let code = self.code();
        &&& 1 <= self.rate <= 8
        &&& 1 <= self.order <= 16
        &&& self.polys@.len() == self.rate
        &&& self.poly_table@.len() == pow2(self.order as nat)
        &&& forall|s: int|
            0 <= s < self.poly_table@.len() ==> #[trigger] self.poly_table@[s] == code.output(s)
    }

    /// Creates an encoder for the convolutional code with the given parameters.
    ///
    /// `polys` must contain exactly `rate` generator polynomials. For example, to
    /// build a rate-1/2, order-7 encoder with polynomials `0o161` and `0o127`,
    /// call `Encoder::new(2, 7, &[0o161, 0o127])`.
    pub fn new(rate: u32, order: u32, polys: &[u16]) -> (encoder: Encoder)
        requires
            1 <= rate <= 8,
            1 <= order <= 16,
            polys@.len() == rate,
        ensures
            encoder.wf(),
            encoder.code() == (Trellis { rate: rate as nat, order: order as nat, polys: polys@ }),
    {
        let poly_table: Vec<u16> = util::conv_poly_table(rate, order, polys);
        Encoder { rate, order, polys: vstd::slice::slice_to_vec(polys), poly_table }
    }

    /// Returns the encoded length, in *bits*, of a message of `len` *bytes*.
    ///
    /// The count includes the `order + 1` flush bits appended to drive the shift
    /// register back to zero. To size a byte buffer for [`encode`](Self::encode),
    /// round up with `encode_len(len).div_ceil(8)`.
    pub fn encode_len(&self, len: usize) -> (bits: usize)
        requires
            self.wf(),
            encoded_len(self.code().rate as int, self.code().order as int, len as int)
                <= usize::MAX,
        ensures
            bits == encoded_len(self.code().rate as int, self.code().order as int, len as int),
            bits == self.code().rate * (8 * len + self.code().order + 1),
    {
        let ghost total = 8 * len + self.order + 1;
        assert(total <= self.rate * total) by (nonlinear_arith)
            requires
                self.rate >= 1,
                total >= 0,
        ;
        let bits: usize = len * 8;
        self.rate as usize * (bits + self.order as usize + 1)
    }

    /// Shifts `bit` into the register and writes the step's output.
    fn step(&self, shift_register: u32, bit: u32, bit_writer: &mut BitWriter, Ghost(x): Ghost<
        Seq<bool>,
    >, Ghost(t): Ghost<int>) -> (next: u32)
        requires
            self.wf(),
            0 <= t < x.len(),
            shift_register == window(x.take(t), self.order as nat),
            bit == bit_value(x[t]),
            old(bit_writer).wf(),
            old(bit_writer).bits().len() == t * self.rate,
            forall|k: int|
                0 <= k < t * self.rate ==> #[trigger] old(bit_writer).bits()[k]
                    == self.code().encoded_bit(x, k),
            t * self.rate + self.rate < 8 * old(bit_writer).buf@.len() + 8,
        ensures
            next == window(x.take(t + 1), self.order as nat),
            final(bit_writer).wf(),
            final(bit_writer).bits().len() == (t + 1) * self.rate,
            forall|k: int|
                0 <= k < (t + 1) * self.rate ==> #[trigger] final(bit_writer).bits()[k]
                    == self.code().encoded_bit(x, k),
            final(bit_writer).buf@.len() == old(bit_writer).buf@.len(),
            forall|i: int|
                final(bit_writer).byte_index <= i < old(bit_writer).buf@.len() ==> #[trigger] final(
                    bit_writer).buf@[i] == old(bit_writer).buf@[i],
            final(bit_writer).byte_index >= old(bit_writer).byte_index,
            final(final(bit_writer).buf)@ == final(old(bit_writer).buf)@,
    {
        let ghost y = x.take(t + 1);
        let ghost rate = self.rate as int;
        proof {
            assert(y.drop_last() =~= x.take(t));
            lemma_register_shift(y, self.order as nat);
            lemma_window_bound(x.take(t), self.order as nat);
            lemma_window_bound(y, self.order as nat);
            lemma_pow2_16(self.order as nat);
        }
        let num_states: u32 = util::num_states_for_order(self.order);
        let next: u32 = (2 * shift_register + bit) % num_states;
        let row: u16 = self.poly_table[next as usize];
        proof {
            lemma_output_bound(self.code().polys, next as nat, self.rate as nat);
            lemma2_to64();
            if self.rate < 8 {
                lemma_pow2_strictly_increases(self.rate as nat, 8);
            }
        }
        let ghost before = bit_writer.bits();
        bit_writer.write(row as u8, self.rate as usize);
        proof {
            assert((t + 1) * rate == t * rate + rate) by (nonlinear_arith);
            assert forall|k: int| 0 <= k < (t + 1) * rate implies #[trigger] bit_writer.bits()[k]
                == self.code().encoded_bit(x, k) by {
                if k < t * rate {
                    assert(bit_writer.bits()[k] == before[k]);
                } else {
                    let j = k - t * rate;
                    lemma_low_bit(row as u8, j as nat);
                    lemma_encoded_bit(self.code(), x, t, j);
                }
            }
        }
        next
    }

    /// Encodes `msg` into `dst`, returning the number of *bits* written.
    ///
    /// `dst` must be large enough to hold the encoded output; size it with
    /// [`encode_len`](Self::encode_len) converted to bytes. If the bit count is
    /// not a multiple of 8, the final byte is padded with zeros. What `dst` holds
    /// beyond it is left alone.
    pub fn encode(&mut self, msg: &[u8], dst: &mut [u8]) -> (res: Result<usize, EncodeError>)
        requires
            old(self).wf(),
            encoded_len(
                old(self).code().rate as int,
                old(self).code().order as int,
                msg@.len() as int,
            ) <= usize::MAX,
        ensures
            *final(self) == *old(self),
            final(dst)@.len() == old(dst)@.len(),
            ({
                let code = old(self).code();
                let bits = encoded_len(code.rate as int, code.order as int, msg@.len() as int);
                let needed = bytes_for(bits);
                if old(dst)@.len() < needed {
                    &&& res matches Err(EncodeError::OutputTooSmall { needed: n, actual })
                    &&& n == needed
                    &&& actual == old(dst)@.len()
                    &&& final(dst)@ == old(dst)@
                } else {
                    &&& res matches Ok(n)
                    &&& n == bits
                    &&& is_encoded(code, msg@, final(dst)@)
                    &&& final(dst)@.skip(needed) == old(dst)@.skip(needed)
                }
            }),
            ({
                let code = old(self).code();
                let bits = code.rate * (8 * msg@.len() + code.order + 1);
                &&& res is Ok <==> bits <= 8 * old(dst)@.len()
                &&& res matches Ok(n) ==> n == bits
                &&& res matches Err(EncodeError::OutputTooSmall { needed, actual }) ==> bits <= 8
                    * needed < bits + 8 && actual == old(dst)@.len()
            }),
    {
        let encode_len: usize = self.encode_len(msg.len());
        let needed: usize = div_ceil_8(encode_len);
        let actual: usize = dst.len();
        if actual < needed {
            return Err(EncodeError::OutputTooSmall { needed, actual });
        }
        let ghost code = self.code();
        let ghost x = code.flushed(bits_of(msg@));
        let ghost rate = self.rate as int;
        let ghost before = dst@;
        proof {
            let total = 8 * msg@.len() + self.order + 1;
            assert(total <= rate * total) by (nonlinear_arith)
                requires
                    rate >= 1,
                    total >= 0,
            ;
        }
        let num_bits: usize = 8 * msg.len();
        let order: usize = self.order as usize;
        assert(x.len() == num_bits + order + 1);
        assert(encode_len == rate * (num_bits + order + 1));

        let mut bit_writer = BitWriter::new(dst);
        let mut shift_register: u32 = 0;
        assert(0 * rate == 0);
        let mut i: usize = 0;
        if msg.len() > 0 {
            let mut bit_reader = BitReader::new(msg);
            while i < num_bits
                invariant
                    i <= num_bits,
                    self.wf(),
                    code == self.code(),
                    rate == self.rate,
                    order == self.order,
                    num_bits == 8 * msg@.len(),
                    x == code.flushed(bits_of(msg@)),
                    x.len() == num_bits + order + 1,
                    encode_len == rate * (num_bits + order + 1),
                    encode_len <= 8 * before.len(),
                    bit_reader.wf(),
                    bit_reader.buf@ == msg@,
                    bit_reader.pos() == i,
                    shift_register == window(x.take(i as int), self.order as nat),
                    bit_writer.wf(),
                    bit_writer.buf@.len() == before.len(),
                    bit_writer.bits().len() == i * rate,
                    forall|k: int|
                        0 <= k < i * rate ==> #[trigger] bit_writer.bits()[k] == code.encoded_bit(x, k),
                    forall|k: int|
                        bit_writer.byte_index <= k < before.len() ==> #[trigger] bit_writer.buf@[k]
                            == before[k],
                    final(bit_writer.buf)@ == after_borrow(dst)@,
                decreases num_bits - i,
            {
                let bit: u8 = bit_reader.read(1);
                proof {
                    lemma_single_bit(bit, x[i as int]);
                    lemma_step_fits(rate, i as int, num_bits + order + 1);
                }
                shift_register =
                    self.step(shift_register, bit as u32, &mut bit_writer, Ghost(x), Ghost(i as int));
                i = i + 1;
            }
        }

        // run on with zeros to drive the register back to the zero state
        let total: usize = num_bits + order + 1;
        while i < total
            invariant
                num_bits <= i <= total,
                total == num_bits + order + 1,
                self.wf(),
                code == self.code(),
                rate == self.rate,
                order == self.order,
                num_bits == 8 * msg@.len(),
                x == code.flushed(bits_of(msg@)),
                x.len() == total,
                encode_len == rate * (num_bits + order + 1),
                encode_len <= 8 * before.len(),
                shift_register == window(x.take(i as int), self.order as nat),
                bit_writer.wf(),
                bit_writer.buf@.len() == before.len(),
                bit_writer.bits().len() == i * rate,
                forall|k: int|
                    0 <= k < i * rate ==> #[trigger] bit_writer.bits()[k] == code.encoded_bit(x, k),
                forall|k: int|
                    bit_writer.byte_index <= k < before.len() ==> #[trigger] bit_writer.buf@[k]
                        == before[k],
                final(bit_writer.buf)@ == after_borrow(dst)@,
            decreases total - i,
        {
            proof {
                lemma_step_fits(rate, i as int, total as int);
            }
            shift_register =
                self.step(shift_register, 0, &mut bit_writer, Ghost(x), Ghost(i as int));
            i = i + 1;
        }
        assert(i * rate == encode_len) by (nonlinear_arith)
            requires
                i == total,
                encode_len == rate * total,
        ;
        bit_writer.flush();
        proof {
            let after = bit_writer.buf@;
            assert(after.skip(needed as int) =~= before.skip(needed as int));
        }
        Ok(encode_len)
    }
}

proof fn lemma_step_fits(rate: int, t: int, total: int)
    requires
        0 <= t < total,
        rate >= 1,
    ensures
        t * rate + rate <= rate * total,
{
    assert(t * rate + rate <= rate * total) by (nonlinear_arith)
        requires
            0 <= t < total,
            rate >= 1,
    ;
}

/// A value with no bit above the lowest is that bit.
proof fn lemma_single_bit(v: u8, b: bool)
    requires
        forall|j: int| 0 <= j < 8 ==> #[trigger] low_bit(v, j) == (j < 1 && b),
    ensures
        v == bit_value(b),
{
    assert forall|j: nat| j < 8 implies #[trigger] super::trellis::nat_bit(v as nat, j) == (j == 0
        && b) by {
        lemma_low_bit(v, j);
        assert(low_bit(v, j as int) == (j < 1 && b));
    }
    lemma2_to64();
    assert forall|j: nat| j < 7 implies !(#[trigger] super::trellis::nat_bit(
        (v / 2) as nat,
        j,
    )) by {
        assert(!super::trellis::nat_bit(v as nat, j + 1));
    }
    lemma_high_bits_clear((v / 2) as nat, 7);
    assert(super::trellis::nat_bit(v as nat, 0) == b);
}

proof fn lemma_high_bits_clear(v: nat, n: nat)
    requires
        v < pow2(n),
        forall|j: nat| j < n ==> !(#[trigger] super::trellis::nat_bit(v, j)),
    ensures
        v == 0,
    decreases n,
{
    if n == 0 {
        lemma2_to64();
    } else {
        lemma_pow2_unfold(n);
        assert(!super::trellis::nat_bit(v, 0));
        assert forall|j: nat| j < n - 1 implies !(#[trigger] super::trellis::nat_bit(v / 2, j)) by {
            assert(!super::trellis::nat_bit(v, j + 1));
        }
        lemma_high_bits_clear(v / 2, (n - 1) as nat);
    }
}

/// Encoded bit `t * rate + j` is bit `j` of step `t`.
proof fn lemma_encoded_bit(code: Trellis, x: Seq<bool>, t: int, j: int)
    requires
        code.rate >= 1,
        0 <= t < x.len(),
        0 <= j < code.rate,
    ensures
        code.encoded_bit(x, t * code.rate + j) == super::trellis::nat_bit(
            code.output(window(x.take(t + 1), code.order)),
            j as nat,
        ),
{
    let r = code.rate as int;
    vstd::arithmetic::div_mod::lemma_fundamental_div_mod_converse(t * r + j, r, t, j);
}

} // verus!
