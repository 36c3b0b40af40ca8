//! Streams of bits packed into bytes, most significant bit first.

use super::trellis::nat_bit;
use vstd::prelude::*;

verus! {

/// Bit `i` of a byte, most significant first.
pub open spec fn byte_bit(b: u8, i: int) -> bool {
    (b >> ((7 - i) as u8)) & 1u8 == 1u8
}

/// Bit `i` of a packed stream.
pub open spec fn bit_at(s: Seq<u8>, i: int) -> bool {
    byte_bit(s[i / 8], i % 8)
}

/// All the bits of a packed stream.
pub open spec fn bits_of(s: Seq<u8>) -> Seq<bool> {
    Seq::new(8 * s.len(), |i: int| bit_at(s, i))
}

/// Bit `j` of a byte, least significant first.
pub open spec fn low_bit(b: u8, j: int) -> bool {
    0 <= j < 8 && (b >> (j as u8)) & 1u8 == 1u8
}

/// Bit `j` out of `k` that wait, shifted up by one, in an unfinished byte.
pub open spec fn pending_bit(b: u8, k: int, j: int) -> bool {
    (b >> ((k - j) as u8)) & 1u8 == 1u8
}

/// Counting bits by halving agrees with counting them by shifting.
pub proof fn lemma_low_bit(b: u8, j: nat)
    requires
        j < 8,
    ensures
        low_bit(b, j as int) == nat_bit(b as nat, j),
    decreases j,
{
    let k = j as u8;
    let i = if k > 0 {
        (k - 1) as u8
    } else {
        0u8
    };
    assert((b >> 0u8) & 1u8 == b % 2 && (k > 0 ==> (b >> k) & 1u8 == ((b / 2) >> i) & 1u8))
        by (bit_vector)
        requires
            k < 8,
            k > 0 ==> i == k - 1,
    ;
    if j > 0 {
        lemma_low_bit(b / 2, (j - 1) as nat);
    }
}

/// An empty byte holds no bits.
proof fn lemma_empty_byte()
    ensures
        0u8 & 1u8 == 0u8,
        0u16 >> 1u16 == 0u16,
{
    assert(0u8 & 1u8 == 0u8 && 0u16 >> 1u16 == 0u16) by (bit_vector);
}

/// What appending a bit to an unfinished byte of `k` bits does to bit `j`.
proof fn lemma_push(c: u8, bit: u8, k: u8, j: u8)
    requires
        c & 1u8 == 0u8,
        bit <= 1,
        k < 8,
        j <= k,
        (c as u16) >> ((k + 1) as u16) == 0u16,
    ensures
        k == 7 && j < 7 ==> ((c | bit) >> ((7 - j) as u8)) & 1u8 == (c >> ((7 - j) as u8)) & 1u8,
        ((c | bit) >> 0u8) & 1u8 == bit,
        k < 7 ==> ((c | bit) << 1u8) & 1u8 == 0u8,
        k < 7 ==> (((c | bit) << 1u8) as u16) >> ((k + 2) as u16) == 0u16,
        k < 7 ==> (((c | bit) << 1u8) >> 1u8) & 1u8 == bit,
        k < 7 && j < k ==> (((c | bit) << 1u8) >> ((k + 1 - j) as u8)) & 1u8 == (c >> ((k
            - j) as u8)) & 1u8,
{
    assert((k == 7 && j < 7 ==> ((c | bit) >> ((7 - j) as u8)) & 1u8 == (c >> ((7 - j) as u8))
        & 1u8) && ((c | bit) >> 0u8) & 1u8 == bit && (k < 7 ==> ((c | bit) << 1u8) & 1u8 == 0u8
        && (((c | bit) << 1u8) as u16) >> ((k + 2) as u16) == 0u16 && (((c | bit) << 1u8) >> 1u8)
        & 1u8 == bit) && (k < 7 && j < k ==> (((c | bit) << 1u8) >> ((k + 1 - j) as u8)) & 1u8 == (
    c >> ((k - j) as u8)) & 1u8)) by (bit_vector)
        requires
            c & 1u8 == 0u8,
            bit <= 1,
            k < 8,
            j <= k,
            (c as u16) >> ((k + 1) as u16) == 0u16,
    ;
}

/// Shifting bits out of a value one at a time.
proof fn lemma_shift_out(val: u8, rest: u8, k: u8)
    ensures
        val >> 0u8 == val,
        rest & 1u8 <= 1,
        k < 7 ==> (val >> k) >> 1u8 == val >> ((k + 1) as u8),
        (val >> 7u8) >> 1u8 == 0u8,
        0u8 >> 1u8 == 0u8,
        0u8 & 1u8 == 0u8,
{
    assert(val >> 0u8 == val && rest & 1u8 <= 1 && (k < 7 ==> (val >> k) >> 1u8 == val >> ((k
        + 1) as u8)) && (val >> 7u8) >> 1u8 == 0u8 && 0u8 >> 1u8 == 0u8 && 0u8 & 1u8 == 0u8)
        by (bit_vector);
}

/// The lowest bit of a byte is 0 or 1.
proof fn lemma_one_bit(b: u8)
    ensures
        b & 1u8 == 0u8 || b & 1u8 == 1u8,
{
    lemma_shift_out(0, b, 0);
}

/// A mask of up to eight bits.
proof fn lemma_mask(h: u16)
    ensures
        h <= 8 ==> 1u16 <= 1u16 << h && 1u16 << h <= 256,
{
    assert(h <= 8 ==> 1u16 <= 1u16 << h && 1u16 << h <= 256) by (bit_vector);
}

/// Writes bits into a byte slice, most significant bit of each byte first.
#[derive(Debug)]
pub struct BitWriter<'a> {
    pub buf: &'a mut [u8],
    pub byte_index: usize,
    pub current_byte_len: usize,
    pub current_byte: u8,
}

impl<'a> BitWriter<'a> {
    /// The unfinished byte holds `current_byte_len` bits, shifted up by one.
    pub open spec fn wf(self) -> bool {
        &&& self.byte_index <= self.buf@.len()
        &&& self.current_byte_len < 8
        &&& self.current_byte & 1u8 == 0u8
        &&& (self.current_byte as u16) >> ((self.current_byte_len + 1) as u16) == 0u16
    }

    /// The bits written so far.
    pub open spec fn bits(self) -> Seq<bool> {
        Seq::new(
            (8 * self.byte_index + self.current_byte_len) as nat,
            |i: int|
                if i < 8 * self.byte_index {
                    bit_at(self.buf@, i)
                } else {
                    pending_bit(
                        self.current_byte,
                        self.current_byte_len as int,
                        i - 8 * self.byte_index,
                    )
                },
        )
    }

    pub fn new(buf: &'a mut [u8]) -> (writer: BitWriter<'a>)
        ensures
            writer.wf(),
            writer.bits() == Seq::<bool>::empty(),
            writer.byte_index == 0,
            writer.buf@ == old(buf)@,
            final(writer.buf)@ == final(buf)@,
    {
        let writer = BitWriter { buf, byte_index: 0, current_byte_len: 0, current_byte: 0 };
        proof {
            lemma_empty_byte();
        }
        assert(writer.bits() =~= Seq::<bool>::empty());
        writer
    }

    /// Appends one bit.
    fn push_bit(&mut self, bit: u8)
        requires
            old(self).wf(),
            old(self).bits().len() + 1 < 8 * old(self).buf@.len() + 8,
            bit <= 1,
        ensures
            final(self).wf(),
            final(self).bits() == old(self).bits().push(bit == 1),
            final(self).buf@.len() == old(self).buf@.len(),
            final(self).byte_index >= old(self).byte_index,
            forall|i: int|
                final(self).byte_index <= i < old(self).buf@.len() ==> #[trigger] final(
                    self).buf@[i] == old(self).buf@[i],
            final(final(self).buf)@ == final(old(self).buf)@,
    {
        let ghost before = *self;
        let ghost old_bits = self.bits();
        let ghost old_buf = self.buf@;
        let k: usize = self.current_byte_len;
        let c: u8 = self.current_byte;
        let n: u8 = c | bit;
        let ghost kk = k as u8;
        if k == 7 {
            self.buf[self.byte_index] = n;
            self.byte_index = self.byte_index + 1;
            self.current_byte_len = 0;
            self.current_byte = 0;
            proof {
                lemma_empty_byte();
                let index = before.byte_index as int;
                assert forall|i: int| 0 <= i < 8 * index + 8 implies self.bits()[i]
                    == old_bits.push(bit == 1)[i] by {
                    if i < 8 * index {
                        assert(i / 8 < index);
                        assert(self.buf@[i / 8] == old_buf[i / 8]);
                    } else {
                        assert(i / 8 == index);
                        let j = (i % 8) as u8;
                        assert(j == i - 8 * index);
                        lemma_push(c, bit, kk, j);
                    }
                }
                assert(self.bits() =~= old_bits.push(bit == 1));
            }
        } else {
            self.current_byte = n << 1;
            self.current_byte_len = k + 1;
            proof {
                lemma_push(c, bit, kk, 0);
                let index = before.byte_index as int;
                assert forall|i: int| 0 <= i < 8 * index + k + 1 implies self.bits()[i]
                    == old_bits.push(bit == 1)[i] by {
                    if i >= 8 * index {
                        let j = (i - 8 * index) as u8;
                        lemma_push(c, bit, kk, j);
                    }
                }
                assert(self.bits() =~= old_bits.push(bit == 1));
            }
        }
    }

    /// Appends the low `nbits` bits of `val`, least significant first.
    pub fn write(&mut self, val: u8, nbits: usize)
        requires
            old(self).wf(),
            old(self).bits().len() + nbits < 8 * old(self).buf@.len() + 8,
        ensures
            final(self).wf(),
            final(self).bits() == old(self).bits() + Seq::new(
                nbits as nat,
                |j: int| low_bit(val, j),
            ),
            final(self).buf@.len() == old(self).buf@.len(),
            final(self).byte_index >= old(self).byte_index,
            forall|i: int|
                final(self).byte_index <= i < old(self).buf@.len() ==> #[trigger] final(
                    self).buf@[i] == old(self).buf@[i],
            final(final(self).buf)@ == final(old(self).buf)@,
    {
        let ghost start = *self;
        let ghost start_bits = self.bits();
        let ghost start_buf = self.buf@;
        let ghost start_index = self.byte_index;
        let ghost wanted = Seq::new(nbits as nat, |j: int| low_bit(val, j));
        let mut rest: u8 = val;
        let mut i: usize = 0;
        assert(start_bits + wanted.take(0) =~= start_bits);
        proof {
            lemma_shift_out(val, val, 0);
        }
        while i < nbits
            invariant
                i <= nbits,
                self.wf(),
                wanted == Seq::new(nbits as nat, |j: int| low_bit(val, j)),
                start_bits.len() + nbits < 8 * start_buf.len() + 8,
                self.buf@.len() == start_buf.len(),
                self.bits() == start_bits + wanted.take(i as int),
                self.byte_index >= start_index,
                forall|k: int|
                    self.byte_index <= k < start_buf.len() ==> #[trigger] self.buf@[k]
                        == start_buf[k],
                final(self.buf)@ == final(start.buf)@,
                i < 8 ==> rest == val >> (i as u8),
                i >= 8 ==> rest == 0,
            decreases nbits - i,
        {
            let bit: u8 = rest & 1;
            proof {
                lemma_shift_out(val, rest, i as u8);
            }
            self.push_bit(bit);
            assert(self.bits() =~= start_bits + wanted.take(i + 1));
            rest = rest >> 1;
            i = i + 1;
        }
        assert(wanted.take(i as int) =~= wanted);
    }

    /// Appends the given bits, each of which is 0 or 1: first those that finish
    /// the current byte, then whole bytes, then the rest.
    pub fn write_iter(&mut self, bits: &[u8])
        requires
            old(self).wf(),
            old(self).bits().len() + bits@.len() < 8 * old(self).buf@.len() + 8,
            forall|i: int| 0 <= i < bits@.len() ==> #[trigger] bits@[i] <= 1,
        ensures
            final(self).wf(),
            final(self).bits() == old(self).bits() + Seq::new(
                bits@.len(),
                |j: int| bits@[j] == 1,
            ),
            final(self).buf@.len() == old(self).buf@.len(),
            final(self).byte_index >= old(self).byte_index,
            forall|i: int|
                final(self).byte_index <= i < old(self).buf@.len() ==> #[trigger] final(
                    self).buf@[i] == old(self).buf@[i],
            final(final(self).buf)@ == final(old(self).buf)@,
    {
        let ghost start = *self;
        let ghost start_bits = self.bits();
        let ghost start_buf = self.buf@;
        let ghost wanted = Seq::new(bits@.len(), |j: int| bits@[j] == 1);
        let mut i: usize = 0;
        assert(start_bits + wanted.take(0) =~= start_bits);
        // finish the current byte
        while i < bits.len() && self.current_byte_len != 0
            invariant
                i <= bits@.len(),
                self.wf(),
                wanted == Seq::new(bits@.len(), |j: int| bits@[j] == 1),
                forall|k: int| 0 <= k < bits@.len() ==> #[trigger] bits@[k] <= 1,
                start_bits.len() + bits@.len() < 8 * start_buf.len() + 8,
                self.buf@.len() == start_buf.len(),
                self.bits() == start_bits + wanted.take(i as int),
                self.byte_index >= start.byte_index,
                forall|k: int|
                    self.byte_index <= k < start_buf.len() ==> #[trigger] self.buf@[k]
                        == start_buf[k],
                final(self.buf)@ == final(start.buf)@,
            decreases bits@.len() - i,
        {
            assert(bits@[i as int] <= 1);
            self.push_bit(bits[i]);
            assert(self.bits() =~= start_bits + wanted.take(i + 1));
            i = i + 1;
        }
        // whole bytes
        while bits.len() - i >= 8
            invariant
                i <= bits@.len(),
                bits@.len() - i >= 8 ==> self.current_byte_len == 0,
                self.wf(),
                wanted == Seq::new(bits@.len(), |j: int| bits@[j] == 1),
                forall|k: int| 0 <= k < bits@.len() ==> #[trigger] bits@[k] <= 1,
                start_bits.len() + bits@.len() < 8 * start_buf.len() + 8,
                self.buf@.len() == start_buf.len(),
                self.bits() == start_bits + wanted.take(i as int),
                self.byte_index >= start.byte_index,
                forall|k: int|
                    self.byte_index <= k < start_buf.len() ==> #[trigger] self.buf@[k]
                        == start_buf[k],
                final(self.buf)@ == final(start.buf)@,
            decreases bits@.len() - i,
        {
            let ghost before = *self;
            let ghost before_buf = self.buf@;
            let ghost index = self.byte_index as int;
            assert(self.bits().len() == start_bits.len() + i);
            let byte: u8 = pack_byte(bits, i);
            self.buf[self.byte_index] = byte;
            self.byte_index = self.byte_index + 1;
            self.current_byte = 0;
            proof {
                lemma_empty_byte();
                let longer = start_bits + wanted.take(i + 8);
                assert forall|k: int| 0 <= k < 8 * index + 8 implies self.bits()[k]
                    == longer[k] by {
                    if k < 8 * index {
                        assert(self.buf@[k / 8] == before_buf[k / 8]);
                        assert(before.bits()[k] == (start_bits + wanted.take(i as int))[k]);
                    } else {
                        assert(k / 8 == index);
                        let j = k - 8 * index;
                        assert(before.bits().len() == 8 * index);
                        assert(longer[k] == wanted[i + j]);
                        assert(byte_bit(byte, j) == (bits@[i + j] == 1));
                    }
                }
                assert(self.bits() =~= longer);
            }
            i = i + 8;
        }
        // the rest starts a new byte
        while i < bits.len()
            invariant
                i <= bits@.len(),
                self.wf(),
                wanted == Seq::new(bits@.len(), |j: int| bits@[j] == 1),
                forall|k: int| 0 <= k < bits@.len() ==> #[trigger] bits@[k] <= 1,
                start_bits.len() + bits@.len() < 8 * start_buf.len() + 8,
                self.buf@.len() == start_buf.len(),
                self.bits() == start_bits + wanted.take(i as int),
                self.byte_index >= start.byte_index,
                forall|k: int|
                    self.byte_index <= k < start_buf.len() ==> #[trigger] self.buf@[k]
                        == start_buf[k],
                final(self.buf)@ == final(start.buf)@,
            decreases bits@.len() - i,
        {
            assert(bits@[i as int] <= 1);
            self.push_bit(bits[i]);
            assert(self.bits() =~= start_bits + wanted.take(i + 1));
            i = i + 1;
        }
        assert(wanted.take(i as int) =~= wanted);
    }

    /// Pads an unfinished byte with zeros and writes it out.
    pub fn flush(&mut self)
        requires
            old(self).wf(),
            old(self).bits().len() <= 8 * old(self).buf@.len(),
        ensures
            final(self).wf(),
            final(self).current_byte_len == 0,
            final(self).byte_index == (old(self).bits().len() + 7) / 8,
            final(self).buf@.len() == old(self).buf@.len(),
            forall|i: int|
                0 <= i < 8 * final(self).byte_index ==> #[trigger] bit_at(final(self).buf@, i)
                    == (i < old(self).bits().len() && old(self).bits()[i]),
            forall|i: int|
                final(self).byte_index <= i < old(self).buf@.len() ==> #[trigger] final(
                    self).buf@[i] == old(self).buf@[i],
            final(final(self).buf)@ == final(old(self).buf)@,
    {
        let ghost before = *self;
        let ghost before_buf = self.buf@;
        let ghost before_bits = self.bits();
        proof {
            lemma_empty_byte();
        }
        if self.current_byte_len != 0 {
            let k: usize = self.current_byte_len;
            let c: u8 = self.current_byte;
            self.buf[self.byte_index] = c << ((7 - k) as u8);
            self.byte_index = self.byte_index + 1;
            self.current_byte_len = 0;
            self.current_byte = 0;
            proof {
                let index = before.byte_index as int;
                assert forall|i: int| 0 <= i < 8 * index + 8 implies #[trigger] bit_at(
                    self.buf@,
                    i,
                ) == (i < before_bits.len() && before_bits[i]) by {
                    if i < 8 * index {
                        assert(self.buf@[i / 8] == before_buf[i / 8]);
                        assert(before_bits[i] == bit_at(before_buf, i));
                    } else {
                        assert(i / 8 == index);
                        let j = (i % 8) as u8;
                        let kk = k as u8;
                        assert(j == i - 8 * index);
                        assert((j < kk ==> ((c << ((7 - kk) as u8)) >> ((7 - j) as u8)) & 1u8 == (
                        c >> ((kk - j) as u8)) & 1u8) && (j >= kk ==> ((c << ((7 - kk) as u8))
                            >> ((7 - j) as u8)) & 1u8 == 0u8)) by (bit_vector)
                            requires
                                c & 1u8 == 0u8,
                                0 < kk < 8,
                                j < 8,
                                (c as u16) >> ((kk + 1) as u16) == 0u16,
                        ;
                        if j < kk {
                            assert(before_bits[i] == pending_bit(c, k as int, j as int));
                        }
                    }
                }
            }
        } else {
            assert forall|i: int| 0 <= i < 8 * self.byte_index implies #[trigger] bit_at(
                self.buf@,
                i,
            ) == (i < before_bits.len() && before_bits[i]) by {
                assert(before_bits[i] == bit_at(before_buf, i));
            }
            self.current_byte = 0;
        }
    }

    /// The number of bytes written out.
    pub fn len(&self) -> (len: usize)
        ensures
            len == self.byte_index,
    {
        self.byte_index
    }
}

/// Eight bits from `at` on as a byte, the first most significant.
fn pack_byte(bits: &[u8], at: usize) -> (byte: u8)
    requires
        at + 8 <= bits@.len(),
        forall|i: int| 0 <= i < bits@.len() ==> #[trigger] bits@[i] <= 1,
    ensures
        forall|j: int| 0 <= j < 8 ==> #[trigger] byte_bit(byte, j) == (bits@[at + j] == 1),
{
    let (b0, b1, b2, b3): (u8, u8, u8, u8) = (bits[at], bits[at + 1], bits[at + 2], bits[at + 3]);
    let (b4, b5, b6, b7): (u8, u8, u8, u8) = (
        bits[at + 4],
        bits[at + 5],
        bits[at + 6],
        bits[at + 7],
    );
    let byte: u8 = b0 << 7 | b1 << 6 | b2 << 5 | b3 << 4 | b4 << 3 | b5 << 2 | b6 << 1 | b7;
    proof {
        assert(b0 <= 1 && b1 <= 1 && b2 <= 1 && b3 <= 1 && b4 <= 1 && b5 <= 1 && b6 <= 1 && b7
            <= 1);
        assert((byte >> 7u8) & 1u8 == b0 && (byte >> 6u8) & 1u8 == b1 && (byte >> 5u8) & 1u8 == b2
            && (byte >> 4u8) & 1u8 == b3 && (byte >> 3u8) & 1u8 == b4 && (byte >> 2u8) & 1u8 == b5
            && (byte >> 1u8) & 1u8 == b6 && (byte >> 0u8) & 1u8 == b7) by (bit_vector)
            requires
                byte == b0 << 7u8 | b1 << 6u8 | b2 << 5u8 | b3 << 4u8 | b4 << 3u8 | b5 << 2u8 | b6
                    << 1u8 | b7,
                b0 <= 1,
                b1 <= 1,
                b2 <= 1,
                b3 <= 1,
                b4 <= 1,
                b5 <= 1,
                b6 <= 1,
                b7 <= 1,
        ;
        assert forall|j: int| 0 <= j < 8 implies #[trigger] byte_bit(byte, j) == (bits@[at + j]
            == 1) by {}
    }
    byte
}

/// The bits of a byte in the opposite order.
pub fn reverse_byte(b: u8) -> (res: u8)
    ensures
        forall|i: int| 0 <= i < 8 ==> #[trigger] low_bit(res, i) == byte_bit(b, i),
        forall|i: u8|
            i < 8 ==> #[trigger] (res >> i) & 1u8 == (b >> ((7 - i) as u8)) & 1u8,
{
    let res: u8 = (b & 0x80) >> 7 | (b & 0x40) >> 5 | (b & 0x20) >> 3 | (b & 0x10) >> 1 | (b & 0x08)
        << 1 | (b & 0x04) << 3 | (b & 0x02) << 5 | (b & 0x01) << 7;
    assert forall|i: int| 0 <= i < 8 implies #[trigger] low_bit(res, i) == byte_bit(b, i) by {
        let k = i as u8;
        assert((res >> k) & 1u8 == (b >> ((7 - k) as u8)) & 1u8) by (bit_vector)
            requires
                res == (b & 0x80u8) >> 7u8 | (b & 0x40u8) >> 5u8 | (b & 0x20u8) >> 3u8 | (b
                    & 0x10u8) >> 1u8 | (b & 0x08u8) << 1u8 | (b & 0x04u8) << 3u8 | (b & 0x02u8)
                    << 5u8 | (b & 0x01u8) << 7u8,
                k < 8,
        ;
    }
    assert forall|i: u8| i < 8 implies #[trigger] (res >> i) & 1u8 == (b >> ((7 - i) as u8))
        & 1u8 by {
        assert(low_bit(res, i as int) == byte_bit(b, i as int));
        lemma_one_bit(res >> i);
        lemma_one_bit(b >> ((7 - i) as u8));
    }
    res
}

/// Reads bits from a byte slice, most significant bit of each byte first.
#[derive(Debug, Clone, Copy)]
pub struct BitReader<'a> {
    pub buf: &'a [u8],
    pub byte_index: usize,
    pub current_byte_len: usize,
    pub current_byte: u8,
}

impl<'a> BitReader<'a> {
    /// The current byte is the one at the current index, with
    /// `current_byte_len` bits of it unread.
    pub open spec fn wf(self) -> bool {
        &&& self.byte_index < self.buf@.len()
        &&& self.current_byte == self.buf@[self.byte_index as int]
        &&& self.current_byte_len <= 8
    }

    /// The number of bits read so far.
    pub open spec fn pos(self) -> int {
        8 * self.byte_index + 8 - self.current_byte_len
    }

    pub fn new(buf: &'a [u8]) -> (reader: BitReader<'a>)
        requires
            buf@.len() > 0,
        ensures
            reader.wf(),
            reader.pos() == 0,
            reader.buf == buf,
    {
        BitReader { buf, byte_index: 0, current_byte_len: 8, current_byte: buf[0] }
    }

    /// Reads the next `nbits` bits; the first is the least significant of the
    /// result.
    pub fn read(&mut self, nbits: usize) -> (res: u8)
        requires
            old(self).wf(),
            1 <= nbits <= 8,
            old(self).pos() + nbits <= 8 * old(self).buf@.len(),
        ensures
            final(self).wf(),
            final(self).buf == old(self).buf,
            final(self).pos() == old(self).pos() + nbits,
            forall|j: int|
                0 <= j < 8 ==> #[trigger] low_bit(res, j) == (j < nbits && bit_at(
                    old(self).buf@,
                    old(self).pos() + j,
                )),
    {
        let ghost start = *self;
        let total: usize = self.buf.len();
        let shift: u8 = (8 - nbits) as u8;
        let held: usize = self.current_byte_len;
        let first: u8 = self.current_byte;
        let mut byte: u8 = 0;
        let mut wanted: usize = nbits;
        if held < nbits {
            // the rest of this byte, then the top of the next
            proof {
                lemma_mask(held as u16);
            }
            let mask: u8 = ((1u16 << (held as u16)) - 1) as u8;
            self.byte_index = self.byte_index + 1;
            self.current_byte = self.buf[self.byte_index];
            self.current_byte_len = 8;
            wanted = nbits - held;
            // a shift by a whole byte leaves nothing
            byte = if wanted == 8 {
                0
            } else {
                (first & mask) << (wanted as u8)
            };
        }
        let below: u8 = (self.current_byte_len - wanted) as u8;
        proof {
            lemma_mask(wanted as u16);
        }
        let low_mask: u8 = ((1u16 << (wanted as u16)) - 1) as u8;
        // a shift by a whole byte leaves nothing
        let low: u8 = if below == 8 {
            0
        } else {
            (self.current_byte >> below) & low_mask
        };
        byte = byte | low;
        self.current_byte_len = self.current_byte_len - wanted;
        let reversed: u8 = reverse_byte(byte);
        let res: u8 = reversed >> shift;
        proof {
            let (n, h, w) = (nbits as u8, held as u8, wanted as u8);
            let second = self.current_byte;
            assert forall|j: int| 0 <= j < 8 implies #[trigger] low_bit(res, j) == (j < nbits
                && bit_at(start.buf@, start.pos() + j)) by {
                let k = j as u8;
                assert(((reversed >> shift) >> k) & 1u8 == if k < n {
                    (reversed >> ((k + 8 - n) as u8)) & 1u8
                } else {
                    0u8
                }) by (bit_vector)
                    requires
                        1 <= n <= 8,
                        shift == 8 - n,
                        k < 8,
                ;
                if j < nbits {
                    // bit k + 8 - n of the reversed byte is bit n - 1 - k of the byte
                    assert(low_bit(reversed, k + 8 - n) == byte_bit(byte, k + 8 - n));
                    let at = start.pos() + j;
                    if held < nbits {
                        assert(k < h ==> at / 8 == start.byte_index && at % 8 == 8 - h + k);
                        assert(k >= h ==> at / 8 == start.byte_index + 1 && at % 8 == k - h);
                        lemma_read_across(first, second, byte, n, h, w, k);
                    } else {
                        assert(at / 8 == start.byte_index && at % 8 == 8 - h + k);
                        lemma_read_within(first, byte, n, h, k);
                    }
                }
            }
        }
        res
    }

    /// The length of the underlying slice in bytes.
    pub fn len(&self) -> (len: usize)
        ensures
            len == self.buf@.len(),
    {
        self.buf.len()
    }
}

proof fn lemma_read_across(first: u8, second: u8, byte: u8, n: u8, h: u8, w: u8, k: u8)
    requires
        1 <= n <= 8,
        h < n,
        w == n - h,
        k < n,
        byte == (if w == 8 {
            0u8
        } else {
            (first & (((1u16 << (h as u16)) - 1) as u8)) << w
        }) | ((second >> ((8 - w) as u8)) & (((1u16 << (w as u16)) - 1) as u8)),
    ensures
        k < h ==> (byte >> ((n - 1 - k) as u8)) & 1u8 == (first >> ((h - 1 - k) as u8)) & 1u8,
        k >= h ==> (byte >> ((n - 1 - k) as u8)) & 1u8 == (second >> ((7 - (k - h)) as u8)) & 1u8,
{
    assert((k < h ==> (byte >> ((n - 1 - k) as u8)) & 1u8 == (first >> ((h - 1 - k) as u8)) & 1u8)
        && (k >= h ==> (byte >> ((n - 1 - k) as u8)) & 1u8 == (second >> ((7 - (k - h)) as u8))
        & 1u8)) by (bit_vector)
        requires
            1 <= n <= 8,
            h < n,
            w == n - h,
            k < n,
            byte == (if w == 8 {
                0u8
            } else {
                (first & (((1u16 << (h as u16)) - 1) as u8)) << w
            }) | ((second >> ((8 - w) as u8)) & (((1u16 << (w as u16)) - 1) as u8)),
    ;
}

proof fn lemma_read_within(first: u8, byte: u8, n: u8, h: u8, k: u8)
    requires
        1 <= n <= 8,
        n <= h <= 8,
        k < n,
        byte == 0u8 | ((first >> ((h - n) as u8)) & (((1u16 << (n as u16)) - 1) as u8)),
    ensures
        (byte >> ((n - 1 - k) as u8)) & 1u8 == (first >> ((h - 1 - k) as u8)) & 1u8,
{
    assert((byte >> ((n - 1 - k) as u8)) & 1u8 == (first >> ((h - 1 - k) as u8)) & 1u8)
        by (bit_vector)
        requires
            1 <= n <= 8,
            n <= h <= 8,
            k < n,
            byte == 0u8 | ((first >> ((h - n) as u8)) & (((1u16 << (n as u16)) - 1) as u8)),
    ;
}

} // verus!
