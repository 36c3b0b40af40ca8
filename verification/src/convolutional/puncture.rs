//! Puncturing: leaving out encoded bits by a repeating pattern.

use super::bit::{bit_at, lemma_low_bit, low_bit, BitWriter};
use super::channel::NEUTRAL_SYMBOL;
use super::error::{bytes_for, div_ceil_8, PunctureError};
use super::kept::{lemma_matrix_entries, lemma_sent_len};
use vstd::prelude::*;

verus! {

/// Whether encoded bit `i` is transmitted.
pub open spec fn keeps_bit(keep: Seq<bool>, i: int) -> bool {
    keep[i % (keep.len() as int)]
}

/// The number of bits transmitted out of the first `n`.
pub open spec fn kept_count(keep: Seq<bool>, n: nat) -> nat
    decreases n,
{
    if n == 0 {
        0
    } else if keeps_bit(keep, n - 1) {
        kept_count(keep, (n - 1) as nat) + 1
    } else {
        kept_count(keep, (n - 1) as nat)
    }
}

/// `dst` holds the kept bits of the first `n` of `src`, in order, padded with
/// zeros to a whole byte.
pub open spec fn is_punctured(keep: Seq<bool>, src: Seq<u8>, n: nat, dst: Seq<u8>) -> bool {
    let out = kept_count(keep, n) as int;
    &&& bytes_for(out) <= dst.len()
    &&& forall|i: int|
        0 <= i < n && #[trigger] keeps_bit(keep, i) ==> bit_at(dst, kept_count(keep, i as nat) as int)
            == bit_at(src, i)
    &&& forall|j: int| out <= j < 8 * bytes_for(out) ==> !(#[trigger] bit_at(dst, j))
}

/// The mask flags the punctured bits among the first `n`, and nothing after
/// them in its last byte.
pub open spec fn is_erasure_mask(keep: Seq<bool>, n: nat, mask: Seq<u8>) -> bool {
    &&& bytes_for(n as int) <= mask.len()
    &&& forall|i: int|
        0 <= i < 8 * bytes_for(n as int) ==> #[trigger] bit_at(mask, i) == (i < n && !keeps_bit(
            keep,
            i,
        ))
}

/// `dst` holds the bits of `src` back in their places, with zeros in the places
/// of punctured bits.
pub open spec fn is_depunctured(keep: Seq<bool>, src: Seq<u8>, n: nat, dst: Seq<u8>) -> bool {
    &&& bytes_for(n as int) <= dst.len()
    &&& forall|i: int|
        0 <= i < 8 * bytes_for(n as int) ==> #[trigger] bit_at(dst, i) == (i < n && keeps_bit(
            keep,
            i,
        ) && bit_at(src, kept_count(keep, i as nat) as int))
}

/// `dst` holds the symbols of `src` back in their places, with a neutral one in
/// the place of each punctured one.
pub open spec fn is_depunctured_soft(keep: Seq<bool>, src: Seq<u8>, dst: Seq<u8>) -> bool {
    forall|i: int|
        0 <= i < dst.len() ==> #[trigger] dst[i] == if keeps_bit(keep, i) {
            src[kept_count(keep, i as nat) as int]
        } else {
            NEUTRAL_SYMBOL
        }
}

/// Counts grow with the range, by no more than it does.
pub proof fn lemma_kept_count(keep: Seq<bool>, m: nat, n: nat)
    requires
        m <= n,
    ensures
        kept_count(keep, m) <= kept_count(keep, n),
        kept_count(keep, n) <= kept_count(keep, m) + (n - m),
    decreases n - m,
{
    if m < n {
        lemma_kept_count(keep, m, (n - 1) as nat);
    }
}

/// A kept bit has a place of its own below the final count.
proof fn lemma_kept_place(keep: Seq<bool>, i: nat, n: nat)
    requires
        i < n,
        keeps_bit(keep, i as int),
    ensures
        kept_count(keep, i) < kept_count(keep, n),
{
    lemma_kept_count(keep, i + 1, n);
}

/// Whole periods add their count.
proof fn lemma_kept_periods(keep: Seq<bool>, periods: nat, rest: nat)
    requires
        keep.len() > 0,
        rest <= keep.len(),
    ensures
        kept_count(keep, periods * keep.len() + rest) == periods * kept_count(keep, keep.len())
            + kept_count(keep, rest),
    decreases periods, rest,
{
    let p = keep.len();
    if rest > 0 {
        let r = (rest - 1) as nat;
        lemma_kept_periods(keep, periods, r);
        let at = periods * p + r;
        vstd::arithmetic::div_mod::lemma_fundamental_div_mod_converse(
            at as int,
            p as int,
            periods as int,
            r as int,
        );
        vstd::arithmetic::div_mod::lemma_small_mod(r, p);
        assert((periods * p + rest - 1) as nat == at);
    } else if periods > 0 {
        let q = (periods - 1) as nat;
        lemma_kept_periods(keep, q, p);
        assert(q * p + p == periods * p) by (nonlinear_arith)
            requires
                q + 1 == periods,
        ;
        let k = kept_count(keep, p);
        assert(q * k + k == periods * k) by (nonlinear_arith)
            requires
                q + 1 == periods,
        ;
    } else {
        assert(0 * p == 0);
        assert(0 * kept_count(keep, p) == 0);
    }
}

/// Putting punctured bits back restores every kept bit and flags all the
/// others.
pub proof fn lemma_depuncture_restores(
    keep: Seq<bool>,
    src: Seq<u8>,
    n: nat,
    punctured: Seq<u8>,
    dst: Seq<u8>,
    mask: Seq<u8>,
    i: int,
)
    requires
        is_punctured(keep, src, n, punctured),
        is_depunctured(keep, punctured, n, dst),
        is_erasure_mask(keep, n, mask),
        0 <= i < n,
    ensures
        bit_at(mask, i) == !keeps_bit(keep, i),
        keeps_bit(keep, i) ==> bit_at(dst, i) == bit_at(src, i),
        !keeps_bit(keep, i) ==> !bit_at(dst, i),
{
}

/// The bit at index `i` of a packed stream.
fn stream_bit(src: &[u8], i: usize) -> (bit: u8)
    requires
        i < 8 * src@.len(),
    ensures
        bit <= 1,
        (bit == 1) == bit_at(src@, i as int),
        low_bit(bit, 0) == bit_at(src@, i as int),
{
    let byte: u8 = src[i / 8];
    let shift: u8 = (7 - i % 8) as u8;
    let bit: u8 = if (byte >> shift) & 1 == 1 {
        1
    } else {
        0
    };
    proof {
        lemma_low_bit(bit, 0);
    }
    bit
}

/// A puncturing pattern for a convolutional code.
///
/// Puncturing raises the rate of a code by deleting some of the encoder's output
/// bits before transmission. The decoder reinserts the missing positions as
/// erasures, so they contribute nothing to the path metric, and runs the original
/// code's trellis. A rate-1/2 code punctured to send 3 of every 4 output bits
/// becomes a rate-2/3 code.
///
/// The pattern is a repeating keep-mask over the encoded bit stream. Encoded bit
/// `k` is transmitted when `keep[k % period]` is true and deleted when it is
/// false. The pattern cycles continuously across the whole encoded block,
/// including the flush tail the encoder appends, so the caller never has to
/// reason about where the message ends.
///
/// Use [`Puncturer::new`] for a keep-mask in that flat form. Use
/// [`Puncturer::from_matrix`] for the `rate` by `period` puncturing matrix used in
/// the coding literature and in standards.
#[derive(Debug, Clone, PartialEq, Eq)]
pub struct Puncturer {
    keep: Vec<bool>,
    kept_per_period: usize,
}

/// The number of kept bits in a whole pattern.
fn count_kept(keep: &[bool], n: usize) -> (count: usize)
    requires
        n <= keep@.len(),
    ensures
        count == kept_count(keep@, n as nat),
        count <= n,
{
    let mut count: usize = 0;
    let mut i: usize = 0;
    while i < n
        invariant
            i <= n <= keep@.len(),
            count == kept_count(keep@, i as nat),
            count <= i,
        decreases n - i,
    {
        proof {
            vstd::arithmetic::div_mod::lemma_small_mod(i as nat, keep@.len());
        }
        if keep[i] {
            count = count + 1;
        }
        i = i + 1;
    }
    count
}

/// A count of zero means that nothing is kept.
proof fn lemma_none_kept(keep: Seq<bool>, n: nat)
    requires
        n <= keep.len(),
    ensures
        kept_count(keep, n) == 0 <==> forall|i: int| 0 <= i < n ==> !(#[trigger] keep[i]),
    decreases n,
{
    if n > 0 {
        lemma_none_kept(keep, (n - 1) as nat);
        vstd::arithmetic::div_mod::lemma_small_mod((n - 1) as nat, keep.len());
        if kept_count(keep, n) == 0 {
            assert forall|i: int| 0 <= i < n implies !(#[trigger] keep[i]) by {
                if i == n - 1 {
                    assert(!keeps_bit(keep, n - 1));
                }
            }
        } else if keeps_bit(keep, n - 1) {
            assert(keep[n - 1]);
        } else {
            let i = choose|i: int| 0 <= i < n - 1 && #[trigger] keep[i];
            assert(keep[i]);
        }
    }
}

/// Some bit of the pattern is kept.
pub open spec fn keeps_some(keep: Seq<bool>) -> bool {
    exists|i: int| 0 <= i < keep.len() && #[trigger] keep[i]
}

/// A matrix, column by column: `keep[c * rate + r] == matrix[r][c]`.
pub open spec fn flattened(matrix: Seq<&[bool]>) -> Seq<bool> {
    Seq::new(
        matrix.len() * matrix[0]@.len(),
        |i: int| matrix[i % (matrix.len() as int)]@[i / (matrix.len() as int)],
    )
}

/// The rows differ in length.
pub open spec fn is_ragged(matrix: Seq<&[bool]>) -> bool {
    exists|r: int|
        0 <= r < matrix.len() && (#[trigger] matrix[r])@.len() != matrix[0]@.len()
}

impl Puncturer {
    /// The repeating pattern.
    pub closed spec fn pattern(self) -> Seq<bool> {
        self.keep@
    }

    /// The pattern keeps something, and the count belongs to it.
    pub closed spec fn wf(self) -> bool {
        &&& self.keep@.len() > 0
        &&& self.kept_per_period == kept_count(self.keep@, self.keep@.len())
        &&& self.kept_per_period > 0
    }

    /// Creates a puncturer from a flat keep-mask.
    ///
    /// `keep[i]` says whether encoded bit `i` of each period is transmitted. The
    /// period is `keep.len()`.
    ///
    /// Returns [`EmptyPattern`](PunctureError::EmptyPattern) if `keep` is empty,
    /// and [`NoKeptBits`](PunctureError::NoKeptBits) if every entry is false,
    /// which would delete the entire stream.
    pub fn new(keep: &[bool]) -> (res: Result<Puncturer, PunctureError>)
        ensures
            keep@.len() == 0 ==> res == Err::<Puncturer, PunctureError>(
                PunctureError::EmptyPattern,
            ),
            keep@.len() > 0 && !keeps_some(keep@) ==> res == Err::<Puncturer, PunctureError>(
                PunctureError::NoKeptBits,
            ),
            keep@.len() > 0 && keeps_some(keep@) ==> (res matches Ok(p) && p.wf() && p.pattern()
                == keep@),
            res is Ok <==> exists|i: int| 0 <= i < keep@.len() && #[trigger] keep@[i],
    {
        if keep.len() == 0 {
            return Err(PunctureError::EmptyPattern);
        }
        let kept_per_period: usize = count_kept(keep, keep.len());
        proof {
            lemma_none_kept(keep@, keep@.len());
        }
        if kept_per_period == 0 {
            return Err(PunctureError::NoKeptBits);
        }
        Ok(Puncturer { keep: vstd::slice::slice_to_vec(keep), kept_per_period })
    }

    /// Creates a puncturer from a `rate` by `period` puncturing matrix.
    ///
    /// Row `r` is the pattern applied to the output of generator polynomial `r`,
    /// and column `c` is one step of the period. The encoder emits all `rate`
    /// output bits of one input step together, so the flattened keep-mask is
    /// `keep[c * rate + r] = matrix[r][c]`.
    ///
    /// Returns [`EmptyPattern`](PunctureError::EmptyPattern) if the matrix has no
    /// rows or no columns, [`RaggedMatrix`](PunctureError::RaggedMatrix) if the
    /// rows are not all the same length, and
    /// [`NoKeptBits`](PunctureError::NoKeptBits) if every entry is false.
    pub fn from_matrix(matrix: &[&[bool]]) -> (res: Result<Puncturer, PunctureError>)
        requires
            matrix@.len() > 0 ==> matrix@.len() * matrix@[0]@.len() <= usize::MAX,
        ensures
            matrix@.len() == 0 || matrix@[0]@.len() == 0 ==> res == Err::<
                Puncturer,
                PunctureError,
            >(PunctureError::EmptyPattern),
            matrix@.len() > 0 && matrix@[0]@.len() > 0 && is_ragged(matrix@) ==> res == Err::<
                Puncturer,
                PunctureError,
            >(PunctureError::RaggedMatrix),
            matrix@.len() > 0 && matrix@[0]@.len() > 0 && !is_ragged(matrix@) ==> {
                if keeps_some(flattened(matrix@)) {
                    res matches Ok(p) && p.wf() && p.pattern() == flattened(matrix@)
                } else {
                    res == Err::<Puncturer, PunctureError>(PunctureError::NoKeptBits)
                }
            },
            matrix@.len() > 0 && matrix@[0]@.len() > 0 ==> (res == Err::<Puncturer, PunctureError>(
                PunctureError::RaggedMatrix,
            ) <==> !(forall|r: int|
                0 <= r < matrix@.len() ==> (#[trigger] matrix@[r])@.len() == matrix@[0]@.len())),
            res matches Ok(p) ==> p.pattern().len() == matrix@.len() * matrix@[0]@.len() && forall|
                r: int,
                c: int,
            |
                0 <= r < matrix@.len() && 0 <= c < matrix@[0]@.len() ==> p.pattern()[c
                    * matrix@.len() + r] == #[trigger] matrix@[r]@[c],
    {
        let rate: usize = matrix.len();
        if rate == 0 {
            return Err(PunctureError::EmptyPattern);
        }
        let period: usize = matrix[0].len();
        if period == 0 {
            return Err(PunctureError::EmptyPattern);
        }
        let mut row: usize = 0;
        while row < rate
            invariant
                row <= rate,
                rate == matrix@.len(),
                rate > 0,
                period > 0,
                period == matrix@[0]@.len(),
                forall|r: int| 0 <= r < row ==> (#[trigger] matrix@[r])@.len() == period,
            decreases rate - row,
        {
            if matrix[row].len() != period {
                assert(matrix@[row as int]@.len() != matrix@[0]@.len());
                return Err(PunctureError::RaggedMatrix);
            }
            row = row + 1;
        }
        let ghost wanted = flattened(matrix@);
        let total: usize = rate * period;
        let mut keep: Vec<bool> = Vec::with_capacity(total);
        let mut c: usize = 0;
        assert(0 * rate == 0);
        while c < period
            invariant
                c <= period,
                rate == matrix@.len(),
                rate > 0,
                period == matrix@[0]@.len(),
                total == rate * period,
                forall|r: int| 0 <= r < rate ==> (#[trigger] matrix@[r])@.len() == period,
                wanted == flattened(matrix@),
                keep@.len() == c * rate,
                c * rate <= total,
                keep@ == wanted.take(c * rate),
            decreases period - c,
        {
            let ghost start = c * rate;
            assert(start + rate == (c + 1) * rate && (c + 1) * rate <= rate * period)
                by (nonlinear_arith)
                requires
                    start == c * rate,
                    c + 1 <= period,
            ;
            let mut r: usize = 0;
            while r < rate
                invariant
                    r <= rate,
                    c < period,
                    rate == matrix@.len(),
                    rate > 0,
                    period == matrix@[0]@.len(),
                    total == rate * period,
                    start == c * rate,
                    start + rate <= total,
                    forall|q: int| 0 <= q < rate ==> (#[trigger] matrix@[q])@.len() == period,
                    wanted == flattened(matrix@),
                    keep@.len() == start + r,
                    keep@ == wanted.take(start + r),
                decreases rate - r,
            {
                proof {
                    assert(matrix@[r as int]@.len() == period);
                    vstd::arithmetic::div_mod::lemma_fundamental_div_mod_converse(
                        start + r,
                        rate as int,
                        c as int,
                        r as int,
                    );
                }
                keep.push(matrix[r][c]);
                r = r + 1;
                assert(keep@ =~= wanted.take(start + r));
            }
            c = c + 1;
        }
        assert(period * rate == rate * period && rate * period > 0) by (nonlinear_arith)
            requires
                rate > 0,
                period > 0,
        ;
        assert(keep@ =~= wanted);
        proof {
            assert forall|r: int, c: int|
                0 <= r < matrix@.len() && 0 <= c < matrix@[0]@.len() implies wanted[c
                * matrix@.len() + r] == #[trigger] matrix@[r]@[c] by {
                lemma_matrix_entries(matrix@, r, c);
            }
        }
        Puncturer::new(&keep)
    }

    /// The length of the repeating pattern, in encoded bits.
    pub fn period(&self) -> (len: usize)
        ensures
            len == self.pattern().len(),
    {
        self.keep.len()
    }

    /// Whether encoded bit `index` is transmitted.
    pub fn keeps(&self, index: usize) -> (kept: bool)
        requires
            self.wf(),
        ensures
            kept == keeps_bit(self.pattern(), index as int),
            kept == self.pattern()[index as int % (self.pattern().len() as int)],
    {
        self.keep[index % self.keep.len()]
    }

    /// Returns the punctured length, in bits, of an encoded block of
    /// `encoded_bits` bits.
    pub fn punctured_len(&self, encoded_bits: usize) -> (len: usize)
        requires
            self.wf(),
        ensures
            len == kept_count(self.pattern(), encoded_bits as nat),
            len == Seq::new(
                encoded_bits as nat,
                |i: int| self.pattern()[i % (self.pattern().len() as int)],
            ).filter(|kept: bool| kept).len(),
            len <= encoded_bits,
    {
        let period: usize = self.keep.len();
        let periods: usize = encoded_bits / period;
        let remainder: usize = encoded_bits % period;
        let tail: usize = count_kept(&self.keep, remainder);
        proof {
            let keep = self.keep@;
            vstd::arithmetic::div_mod::lemma_fundamental_div_mod(
                encoded_bits as int,
                period as int,
            );
            assert(periods * period == period * periods) by (nonlinear_arith);
            lemma_kept_periods(keep, periods as nat, remainder as nat);
            lemma_kept_count(keep, 0, encoded_bits as nat);
            lemma_sent_len(keep, encoded_bits as nat);
            assert(periods * self.kept_per_period >= 0) by (nonlinear_arith);
        }
        periods * self.kept_per_period + tail
    }

    /// Deletes the punctured bits from an encoded block, returning the number of
    /// bits written to `dst`.
    ///
    /// `src` holds the encoder's output and `encoded_bits` is its length in bits.
    /// Size `dst` with [`punctured_len`](Self::punctured_len), rounded up to
    /// bytes. Both buffers are packed bit streams, most significant bit first.
    ///
    /// Returns [`InputTooSmall`](PunctureError::InputTooSmall) if `src` is shorter
    /// than `encoded_bits` describes, and
    /// [`OutputTooSmall`](PunctureError::OutputTooSmall) if `dst` cannot hold the
    /// punctured block.
    pub fn puncture(&self, src: &[u8], encoded_bits: usize, dst: &mut [u8]) -> (res: Result<
        usize,
        PunctureError,
    >)
        requires
            self.wf(),
        ensures
            final(dst)@.len() == old(dst)@.len(),
            ({
                let needed_in = bytes_for(encoded_bits as int);
                let out = kept_count(self.pattern(), encoded_bits as nat) as int;
                let needed_out = bytes_for(out);
                if src@.len() < needed_in {
                    &&& res matches Err(PunctureError::InputTooSmall { needed, actual })
                    &&& needed == needed_in
                    &&& actual == src@.len()
                    &&& final(dst)@ == old(dst)@
                } else if old(dst)@.len() < needed_out {
                    &&& res matches Err(PunctureError::OutputTooSmall { needed, actual })
                    &&& needed == needed_out
                    &&& actual == old(dst)@.len()
                    &&& final(dst)@ == old(dst)@
                } else {
                    &&& res matches Ok(n)
                    &&& n == out
                    &&& is_punctured(self.pattern(), src@, encoded_bits as nat, final(dst)@)
                    &&& final(dst)@.skip(needed_out) == old(dst)@.skip(needed_out)
                }
            }),
    {
        let needed: usize = div_ceil_8(encoded_bits);
        let actual: usize = src.len();
        if actual < needed {
            return Err(PunctureError::InputTooSmall { needed, actual });
        }
        let out_bits: usize = self.punctured_len(encoded_bits);
        let needed: usize = div_ceil_8(out_bits);
        let actual: usize = dst.len();
        if actual < needed {
            return Err(PunctureError::OutputTooSmall { needed, actual });
        }
        let ghost keep = self.pattern();
        let ghost before = dst@;
        let mut writer = BitWriter::new(dst);
        let mut i: usize = 0;
        while i < encoded_bits
            invariant
                i <= encoded_bits,
                self.wf(),
                keep == self.pattern(),
                encoded_bits <= 8 * src@.len(),
                kept_count(keep, encoded_bits as nat) <= 8 * before.len(),
                writer.wf(),
                writer.buf@.len() == before.len(),
                writer.bits().len() == kept_count(keep, i as nat),
                forall|k: int|
                    0 <= k < i && #[trigger] keeps_bit(keep, k) ==> {
                        &&& kept_count(keep, k as nat) < writer.bits().len()
                        &&& writer.bits()[kept_count(keep, k as nat) as int] == bit_at(src@, k)
                    },
                forall|k: int|
                    writer.byte_index <= k < before.len() ==> #[trigger] writer.buf@[k]
                        == before[k],
                final(writer.buf)@ == after_borrow(dst)@,
            decreases encoded_bits - i,
        {
            let ghost old_bits = writer.bits();
            if self.keeps(i) {
                proof {
                    lemma_kept_place(keep, i as nat, encoded_bits as nat);
                }
                let bit: u8 = stream_bit(src, i);
                writer.write(bit, 1);
                assert forall|k: int| 0 <= k < i + 1 && #[trigger] keeps_bit(keep, k) implies {
                    &&& kept_count(keep, k as nat) < writer.bits().len()
                    &&& writer.bits()[kept_count(keep, k as nat) as int] == bit_at(src@, k)
                } by {
                    if k < i {
                        assert(writer.bits()[kept_count(keep, k as nat) as int]
                            == old_bits[kept_count(keep, k as nat) as int]);
                    }
                }
            }
            i = i + 1;
        }
        let ghost bits = writer.bits();
        writer.flush();
        proof {
            let after = writer.buf@;
            assert forall|k: int|
                0 <= k < encoded_bits && #[trigger] keeps_bit(keep, k) implies bit_at(
                after,
                kept_count(keep, k as nat) as int,
            ) == bit_at(src@, k) by {
                assert(bits[kept_count(keep, k as nat) as int] == bit_at(src@, k));
            }
            assert(after.skip(needed as int) =~= before.skip(needed as int));
        }
        Ok(out_bits)
    }

    /// Reinserts the punctured positions of a hard-decision block, building the
    /// erasure mask that marks them.
    ///
    /// `src` is the received punctured bit stream and `encoded_bits` is the length
    /// of the original unpunctured block. `dst` receives the full-width bit stream
    /// and `erasure` receives one bit per encoded bit, set where the bit was
    /// punctured. Size both with `encoded_bits.div_ceil(8)`.
    ///
    /// Pass `dst` and `erasure` to
    /// [`decode_hard_with_erasure`](super::Decoder::decode_hard_with_erasure).
    ///
    /// Returns [`InputTooSmall`](PunctureError::InputTooSmall) if `src` is shorter
    /// than the punctured length, and
    /// [`OutputTooSmall`](PunctureError::OutputTooSmall) if `dst` or `erasure` is
    /// too small.
    pub fn depuncture_hard(
        &self,
        src: &[u8],
        encoded_bits: usize,
        dst: &mut [u8],
        erasure: &mut [u8],
    ) -> (res: Result<(), PunctureError>)
        requires
            self.wf(),
        ensures
            final(dst)@.len() == old(dst)@.len(),
            final(erasure)@.len() == old(erasure)@.len(),
            res is Err ==> final(dst)@ == old(dst)@ && final(erasure)@ == old(erasure)@,
            ({
                let needed_in = bytes_for(
                    kept_count(self.pattern(), encoded_bits as nat) as int,
                );
                let needed_out = bytes_for(encoded_bits as int);
                if src@.len() < needed_in {
                    &&& res matches Err(PunctureError::InputTooSmall { needed, actual })
                    &&& needed == needed_in
                    &&& actual == src@.len()
                } else if old(dst)@.len() < needed_out {
                    &&& res matches Err(PunctureError::OutputTooSmall { needed, actual })
                    &&& needed == needed_out
                    &&& actual == old(dst)@.len()
                } else if old(erasure)@.len() < needed_out {
                    &&& res matches Err(PunctureError::OutputTooSmall { needed, actual })
                    &&& needed == needed_out
                    &&& actual == old(erasure)@.len()
                } else {
                    &&& res is Ok
                    &&& is_depunctured(self.pattern(), src@, encoded_bits as nat, final(dst)@)
                    &&& is_erasure_mask(self.pattern(), encoded_bits as nat, final(erasure)@)
                    &&& final(dst)@.skip(needed_out) == old(dst)@.skip(needed_out)
                    &&& final(erasure)@.skip(needed_out) == old(erasure)@.skip(needed_out)
                }
            }),
    {
        let in_bits: usize = self.punctured_len(encoded_bits);
        let needed: usize = div_ceil_8(in_bits);
        let actual: usize = src.len();
        if actual < needed {
            return Err(PunctureError::InputTooSmall { needed, actual });
        }
        let needed: usize = div_ceil_8(encoded_bits);
        let actual: usize = dst.len();
        if actual < needed {
            return Err(PunctureError::OutputTooSmall { needed, actual });
        }
        let actual: usize = erasure.len();
        if actual < needed {
            return Err(PunctureError::OutputTooSmall { needed, actual });
        }
        let ghost keep = self.pattern();
        let ghost before = dst@;
        let ghost mask_before = erasure@;
        let mut writer = BitWriter::new(dst);
        let mut erasure_writer = BitWriter::new(erasure);
        let mut read: usize = 0;
        let mut i: usize = 0;
        while i < encoded_bits
            invariant
                i <= encoded_bits,
                self.wf(),
                keep == self.pattern(),
                read == kept_count(keep, i as nat),
                kept_count(keep, encoded_bits as nat) == in_bits,
                in_bits <= 8 * src@.len(),
                encoded_bits <= 8 * before.len(),
                encoded_bits <= 8 * mask_before.len(),
                writer.wf(),
                writer.buf@.len() == before.len(),
                writer.bits().len() == i,
                forall|k: int|
                    0 <= k < i ==> #[trigger] writer.bits()[k] == (keeps_bit(keep, k) && bit_at(
                        src@,
                        kept_count(keep, k as nat) as int,
                    )),
                forall|k: int|
                    writer.byte_index <= k < before.len() ==> #[trigger] writer.buf@[k]
                        == before[k],
                final(writer.buf)@ == after_borrow(dst)@,
                erasure_writer.wf(),
                erasure_writer.buf@.len() == mask_before.len(),
                erasure_writer.bits().len() == i,
                forall|k: int|
                    0 <= k < i ==> #[trigger] erasure_writer.bits()[k] == !keeps_bit(keep, k),
                forall|k: int|
                    erasure_writer.byte_index <= k < mask_before.len()
                        ==> #[trigger] erasure_writer.buf@[k] == mask_before[k],
                final(erasure_writer.buf)@ == after_borrow(erasure)@,
            decreases encoded_bits - i,
        {
            let ghost old_bits = writer.bits();
            let ghost old_mask = erasure_writer.bits();
            proof {
                lemma_low_bit(0, 0);
                lemma_low_bit(1, 0);
            }
            if self.keeps(i) {
                proof {
                    lemma_kept_place(keep, i as nat, encoded_bits as nat);
                }
                let bit: u8 = stream_bit(src, read);
                read = read + 1;
                writer.write(bit, 1);
                erasure_writer.write(0, 1);
            } else {
                // the value does not matter; the decoder reads the erasure flag
                writer.write(0, 1);
                erasure_writer.write(1, 1);
            }
            proof {
                assert forall|k: int| 0 <= k < i + 1 implies #[trigger] writer.bits()[k] == (
                keeps_bit(keep, k) && bit_at(src@, kept_count(keep, k as nat) as int)) by {
                    if k < i {
                        assert(writer.bits()[k] == old_bits[k]);
                    }
                }
                assert forall|k: int| 0 <= k < i + 1 implies #[trigger] erasure_writer.bits()[k]
                    == !keeps_bit(keep, k) by {
                    if k < i {
                        assert(erasure_writer.bits()[k] == old_mask[k]);
                    }
                }
            }
            i = i + 1;
        }
        let ghost bits = writer.bits();
        let ghost flags = erasure_writer.bits();
        writer.flush();
        erasure_writer.flush();
        proof {
            let (after, mask) = (writer.buf@, erasure_writer.buf@);
            assert(after.skip(needed as int) =~= before.skip(needed as int));
            assert(mask.skip(needed as int) =~= mask_before.skip(needed as int));
        }
        Ok(())
    }

    /// Reinserts the punctured positions of a soft-decision block, building the
    /// erasure mask that marks them.
    ///
    /// `src` holds one 8-bit soft symbol per received bit. `dst` receives one soft
    /// symbol per encoded bit, so its length is the length of the original
    /// unpunctured block. `erasure` receives one bit per encoded bit and must hold
    /// `dst.len().div_ceil(8)` bytes.
    ///
    /// Pass `dst` and `erasure` to
    /// [`decode_soft_with_erasure`](super::Decoder::decode_soft_with_erasure).
    ///
    /// Returns [`InputTooSmall`](PunctureError::InputTooSmall) if `src` is shorter
    /// than the punctured length, and
    /// [`OutputTooSmall`](PunctureError::OutputTooSmall) if `erasure` is too small.
    pub fn depuncture_soft(&self, src: &[u8], dst: &mut [u8], erasure: &mut [u8]) -> (res: Result<
        (),
        PunctureError,
    >)
        requires
            self.wf(),
        ensures
            final(dst)@.len() == old(dst)@.len(),
            final(erasure)@.len() == old(erasure)@.len(),
            res is Err ==> final(dst)@ == old(dst)@ && final(erasure)@ == old(erasure)@,
            ({
                let n = old(dst)@.len();
                let needed_in = kept_count(self.pattern(), n);
                let needed_out = bytes_for(n as int);
                if src@.len() < needed_in {
                    &&& res matches Err(PunctureError::InputTooSmall { needed, actual })
                    &&& needed == needed_in
                    &&& actual == src@.len()
                } else if old(erasure)@.len() < needed_out {
                    &&& res matches Err(PunctureError::OutputTooSmall { needed, actual })
                    &&& needed == needed_out
                    &&& actual == old(erasure)@.len()
                } else {
                    &&& res is Ok
                    &&& is_depunctured_soft(self.pattern(), src@, final(dst)@)
                    &&& is_erasure_mask(self.pattern(), n, final(erasure)@)
                    &&& final(erasure)@.skip(needed_out) == old(erasure)@.skip(needed_out)
                }
            }),
    {
        let encoded_bits: usize = dst.len();
        let needed: usize = self.punctured_len(encoded_bits);
        let actual: usize = src.len();
        if actual < needed {
            return Err(PunctureError::InputTooSmall { needed, actual });
        }
        let mask_bytes: usize = div_ceil_8(encoded_bits);
        let actual: usize = erasure.len();
        if actual < mask_bytes {
            return Err(PunctureError::OutputTooSmall { needed: mask_bytes, actual });
        }
        let ghost keep = self.pattern();
        let ghost mask_before = erasure@;
        let mut erasure_writer = BitWriter::new(erasure);
        let mut read: usize = 0;
        let mut i: usize = 0;
        while i < encoded_bits
            invariant
                i <= encoded_bits,
                self.wf(),
                keep == self.pattern(),
                read == kept_count(keep, i as nat),
                kept_count(keep, encoded_bits as nat) <= src@.len(),
                encoded_bits <= 8 * mask_before.len(),
                dst@.len() == encoded_bits,
                forall|k: int|
                    0 <= k < i ==> #[trigger] dst@[k] == if keeps_bit(keep, k) {
                        src@[kept_count(keep, k as nat) as int]
                    } else {
                        NEUTRAL_SYMBOL
                    },
                erasure_writer.wf(),
                erasure_writer.buf@.len() == mask_before.len(),
                erasure_writer.bits().len() == i,
                forall|k: int|
                    0 <= k < i ==> #[trigger] erasure_writer.bits()[k] == !keeps_bit(keep, k),
                forall|k: int|
                    erasure_writer.byte_index <= k < mask_before.len()
                        ==> #[trigger] erasure_writer.buf@[k] == mask_before[k],
                final(erasure_writer.buf)@ == after_borrow(erasure)@,
            decreases encoded_bits - i,
        {
            let ghost old_mask = erasure_writer.bits();
            proof {
                lemma_low_bit(0, 0);
                lemma_low_bit(1, 0);
            }
            if self.keeps(i) {
                proof {
                    lemma_kept_place(keep, i as nat, encoded_bits as nat);
                }
                dst[i] = src[read];
                read = read + 1;
                erasure_writer.write(0, 1);
            } else {
                // the value does not matter; the decoder reads the erasure flag
                dst[i] = NEUTRAL_SYMBOL;
                erasure_writer.write(1, 1);
            }
            proof {
                assert forall|k: int| 0 <= k < i + 1 implies #[trigger] erasure_writer.bits()[k]
                    == !keeps_bit(keep, k) by {
                    if k < i {
                        assert(erasure_writer.bits()[k] == old_mask[k]);
                    }
                }
            }
            i = i + 1;
        }
        let ghost flags = erasure_writer.bits();
        erasure_writer.flush();
        proof {
            let mask = erasure_writer.buf@;
            assert(mask.skip(mask_bytes as int) =~= mask_before.skip(mask_bytes as int));
        }
        Ok(())
    }
}

} // verus!
