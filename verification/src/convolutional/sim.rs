//! The parts of a channel simulation that work on bits: corrupting a block,
//! slicing soft symbols, and counting what went wrong.

pub use crate::util::Rng;

use super::bit::{bit_at, byte_bit, lemma_low_bit};
use super::error::{bytes_for, div_ceil_8};
use super::trellis::nat_bit;
use super::util::{differing_bits, lemma_ones_xor, metric_distance};
use crate::util::{draw, lemma_draws, state_after};
use vstd::arithmetic::div_mod::lemma_fundamental_div_mod_converse;
use vstd::arithmetic::power2::lemma2_to64;
use vstd::prelude::*;

verus! {

/// The number of the first `n` bits in which two packed streams differ.
pub open spec fn hamming(a: Seq<u8>, b: Seq<u8>, n: nat) -> nat
    decreases n,
{
    if n == 0 {
        0
    } else {
        hamming(a, b, (n - 1) as nat) + (if bit_at(a, n - 1) != bit_at(b, n - 1) {
            1nat
        } else {
            0nat
        })
    }
}

/// The places among the first `n` bits where two packed streams differ, the most
/// significant bit of each byte first.
pub open spec fn differing_places(a: Seq<u8>, b: Seq<u8>, n: nat) -> Seq<int> {
    Seq::new(n, |i: int| i).filter(
        |i: int|
            ((a[i / 8] >> ((7 - i % 8) as u8)) & 1u8 == 1u8) != ((b[i / 8] >> ((7 - i % 8) as u8))
                & 1u8 == 1u8),
    )
}

/// The distance is the number of places where the streams differ.
pub proof fn lemma_differing_places(a: Seq<u8>, b: Seq<u8>, n: nat)
    ensures
        hamming(a, b, n) == differing_places(a, b, n).len(),
    decreases n,
{
    let all = Seq::new(n, |i: int| i);
    reveal(Seq::filter);
    if n > 0 {
        lemma_differing_places(a, b, (n - 1) as nat);
        assert(all.drop_last() =~= Seq::new((n - 1) as nat, |i: int| i));
        assert(all.last() == n - 1);
    }
}

/// The distance is symmetric, and nothing is at a distance from itself.
pub proof fn lemma_distance_symmetric(a: Seq<u8>, b: Seq<u8>, n: nat)
    ensures
        hamming(a, b, n) == hamming(b, a, n),
        hamming(a, a, n) == 0,
    decreases n,
{
    if n > 0 {
        lemma_distance_symmetric(a, b, (n - 1) as nat);
    }
}

/// Setting or flipping one bit of a byte, most significant first.
proof fn lemma_touch_bit(b: u8, k: u8, j: u8)
    requires
        k < 8,
        j < 8,
    ensures
        byte_bit(b ^ (0x80u8 >> k), j as int) == (byte_bit(b, j as int) != (j == k)),
        byte_bit(b | (0x80u8 >> k), j as int) == (byte_bit(b, j as int) || j == k),
        (b & (0x80u8 >> k) != 0) == byte_bit(b, k as int),
{
    let (m, n) = ((7 - j) as u8, (7 - k) as u8);
    assert((((b ^ (0x80u8 >> k)) >> m) & 1u8 == 1u8) == (((b >> m) & 1u8 == 1u8) != (j == k)) && (((b
        | (0x80u8 >> k)) >> m) & 1u8 == 1u8) == ((b >> m) & 1u8 == 1u8 || j == k) && (b & (0x80u8
        >> k) != 0) == ((b >> n) & 1u8 == 1u8)) by (bit_vector)
        requires
            k < 8,
            j < 8,
            m == 7 - j,
            n == 7 - k,
    ;
}

/// The streams differ in bit `p` alone.
spec fn differs_at(a: Seq<u8>, b: Seq<u8>, p: int) -> bool {
    &&& a.len() == b.len()
    &&& forall|i: int|
        0 <= i < 8 * a.len() ==> #[trigger] bit_at(a, i) == (bit_at(b, i) != (i == p))
}

proof fn lemma_flip(a: Seq<u8>, p: int)
    requires
        0 <= p < 8 * a.len(),
    ensures
        differs_at(a.update(p / 8, a[p / 8] ^ (0x80u8 >> ((p % 8) as u8))), a, p),
{
    let b = a.update(p / 8, a[p / 8] ^ (0x80u8 >> ((p % 8) as u8)));
    assert forall|i: int| 0 <= i < 8 * a.len() implies #[trigger] bit_at(b, i) == (bit_at(a, i) != (i
        == p)) by {
        if i / 8 == p / 8 {
            lemma_touch_bit(a[p / 8], (p % 8) as u8, (i % 8) as u8);
        }
    }
}

/// Flipping a bit in which two streams agree moves them apart by one.
proof fn lemma_one_further(a: Seq<u8>, b: Seq<u8>, c: Seq<u8>, p: int, n: nat)
    requires
        differs_at(c, b, p),
        a.len() == b.len(),
        0 <= p,
        n <= 8 * a.len(),
        p < n ==> bit_at(a, p) == bit_at(b, p),
    ensures
        hamming(a, c, n) == hamming(a, b, n) + (if p < n {
            1nat
        } else {
            0nat
        }),
    decreases n,
{
    if n > 0 {
        lemma_one_further(a, b, c, p, (n - 1) as nat);
        assert(bit_at(c, n - 1) == (bit_at(b, n - 1) != (n - 1 == p)));
    }
}

/// Where the bit of window `w` lies that the next draw picks.
pub open spec fn picked(seed: u64, len: int, w: int) -> int {
    w * len + (draw(seed, (w + 1) as nat) as usize) as int % len
}

/// The position lies in a window before `windows`, and is the one picked there.
pub open spec fn is_picked(seed: u64, len: int, windows: int, i: int) -> bool {
    0 <= i / len < windows && i == picked(seed, len, i / len)
}

/// The window of the flips, in encoded bits: as long as the shortest traceback.
pub open spec fn interval_len(rate: int, order: int) -> int {
    5 * order * rate
}

/// Flips one random bit in each `5 * order * rate`-bit window of `encoded`.
///
/// The window is the minimum traceback length in encoded bits, so at most one
/// bit is corrupted before the trellis reconverges. Returns the number of bits
/// flipped, which is how far the block has moved.
pub fn flip_with_interval(
    encoded: &mut [u8],
    enc_bits: usize,
    rate: u32,
    order: u32,
    rng: &mut Rng,
) -> (flips: usize)
    requires
        rate >= 1,
        order >= 1,
        interval_len(rate as int, order as int) <= usize::MAX,
        enc_bits <= 8 * old(encoded)@.len(),
        8 * old(encoded)@.len() <= usize::MAX,
    ensures
        flips == enc_bits as int / interval_len(rate as int, order as int),
        final(rng).state() == state_after(old(rng).state(), flips as nat),
        final(encoded)@.len() == old(encoded)@.len(),
        forall|i: int|
            0 <= i < 8 * old(encoded)@.len() ==> #[trigger] bit_at(final(encoded)@, i) == (bit_at(
                old(encoded)@,
                i,
            ) != is_picked(
                old(rng).state(),
                interval_len(rate as int, order as int),
                flips as int,
                i,
            )),
        flips == hamming(old(encoded)@, final(encoded)@, 8 * old(encoded)@.len()),
        flips == enc_bits as int / (5 * order * rate),
        forall|w: int|
            0 <= w < flips ==> ({
                let i = w * (5 * order * rate) + (#[trigger] draw(
                    old(rng).state(),
                    (w + 1) as nat,
                ) as usize) as int % (5 * order * rate);
                ((final(encoded)@[i / 8] >> ((7 - i % 8) as u8)) & 1u8 == 1u8) != ((old(
                    encoded)@[i / 8] >> ((7 - i % 8) as u8)) & 1u8 == 1u8)
            }),
{
    let ghost seed = rng.state();
    let ghost len = interval_len(rate as int, order as int);
    let ghost start = encoded@;
    proof {
        assert(5 * order <= 5 * order * rate && 5 * order * rate >= 5) by (nonlinear_arith)
            requires
                rate >= 1,
                order >= 1,
        ;
        assert(5 * order * rate == len);
    }
    let interval: usize = 5 * order as usize * rate as usize;
    let mut flips: usize = 0;
    let mut base: usize = 0;
    proof {
        lemma_hamming_same(start, 8 * start.len());
        assert forall|i: int| 0 <= i < 8 * start.len() implies !is_picked(seed, len, 0, i) by {}
    }
    while interval <= enc_bits - base
        invariant
            interval == len,
            len >= 5,
            base <= enc_bits,
            enc_bits <= 8 * encoded@.len(),
            8 * encoded@.len() <= usize::MAX,
            encoded@.len() == start.len(),
            base == flips * len,
            flips <= base,
            rng.state() == state_after(seed, flips as nat),
            forall|i: int|
                0 <= i < 8 * start.len() ==> #[trigger] bit_at(encoded@, i) == (bit_at(start, i)
                    != is_picked(seed, len, flips as int, i)),
            flips == hamming(start, encoded@, 8 * start.len()),
        decreases enc_bits - base,
    {
        let ghost before = encoded@;
        proof {
            lemma_draws(seed, flips as nat, 1);
        }
        let choice: usize = rng.next_u64() as usize;
        let bit: usize = base + choice % interval;
        let ghost p = bit as int;
        encoded[bit / 8] = encoded[bit / 8] ^ (0x80u8 >> ((bit % 8) as u8));
        proof {
            lemma_flip(before, p);
            assert(p == picked(seed, len, flips as int));
            lemma_fundamental_div_mod_converse(p, len, flips as int, p - base);
            assert forall|i: int| 0 <= i < 8 * start.len() implies #[trigger] is_picked(
                seed,
                len,
                flips + 1,
                i,
            ) == (i == p || is_picked(seed, len, flips as int, i)) by {
                if i / len == flips {
                    assert((i == picked(seed, len, flips as int)) == (i == p));
                }
            }
            assert(!is_picked(seed, len, flips as int, p));
            assert(bit_at(before, p) == bit_at(start, p));
            lemma_one_further(start, before, encoded@, p, 8 * start.len());
            assert forall|i: int| 0 <= i < 8 * start.len() implies #[trigger] bit_at(encoded@, i)
                == (bit_at(start, i) != is_picked(seed, len, flips + 1, i)) by {
                assert(bit_at(before, i) == (bit_at(start, i) != is_picked(
                    seed,
                    len,
                    flips as int,
                    i,
                )));
            }
            assert((flips + 1) * len == flips * len + len) by (nonlinear_arith);
        }
        flips = flips + 1;
        base = base + interval;
    }
    proof {
        lemma_fundamental_div_mod_converse(enc_bits as int, len, flips as int, enc_bits - base);
        assert forall|w: int| 0 <= w < flips implies ({
            let i = w * (5 * order * rate) + (#[trigger] draw(seed, (w + 1) as nat) as usize) as int
                % (5 * order * rate);
            ((encoded@[i / 8] >> ((7 - i % 8) as u8)) & 1u8 == 1u8) != ((start[i / 8] >> ((7 - i
                % 8) as u8)) & 1u8 == 1u8)
        }) by {
            let off = (draw(seed, (w + 1) as nat) as usize) as int % len;
            let i = w * len + off;
            lemma_fundamental_div_mod_converse(i, len, w, off);
            assert(0 <= i < flips * len) by (nonlinear_arith)
                requires
                    0 <= w < flips,
                    0 <= off < len,
                    i == w * len + off,
            ;
            assert(is_picked(seed, len, flips as int, i));
            assert(bit_at(encoded@, i) != bit_at(start, i));
        }
    }
    flips
}

proof fn lemma_hamming_same(a: Seq<u8>, n: nat)
    ensures
        hamming(a, a, n) == 0,
    decreases n,
{
    if n > 0 {
        lemma_hamming_same(a, (n - 1) as nat);
    }
}

/// Counting differing bits may start at the other end.
proof fn lemma_differing_last(x: nat, y: nat, m: nat)
    ensures
        differing_bits(x, y, m + 1) == differing_bits(x, y, m) + (if nat_bit(x, m) != nat_bit(
            y,
            m,
        ) {
            1nat
        } else {
            0nat
        }),
    decreases m,
{
    reveal_with_fuel(differing_bits, 2);
    if m > 0 {
        lemma_differing_last(x / 2, y / 2, (m - 1) as nat);
        assert((m - 1) as nat + 1 == m);
    }
}

/// The last `m` bits of byte `q` add their differences to the distance.
proof fn lemma_byte_distance(a: Seq<u8>, b: Seq<u8>, q: nat, m: nat)
    requires
        m <= 8,
    ensures
        hamming(a, b, 8 * q + 8) == hamming(a, b, (8 * q + 8 - m) as nat) + differing_bits(
            a[q as int] as nat,
            b[q as int] as nat,
            m,
        ),
    decreases m,
{
    if m > 0 {
        let j = (m - 1) as nat;
        lemma_byte_distance(a, b, q, j);
        lemma_differing_last(a[q as int] as nat, b[q as int] as nat, j);
        lemma_low_bit(a[q as int], j);
        lemma_low_bit(b[q as int], j);
        let i = 8 * q + 7 - j;
        assert(i / 8 == q && i % 8 == 7 - j);
    }
}

/// Counts the bits that differ between `a` and `b`, their Hamming distance. The
/// longer of the two counts as far as the shorter goes.
pub fn bit_distance(a: &[u8], b: &[u8]) -> (distance: usize)
    requires
        8 * a@.len() <= usize::MAX || 8 * b@.len() <= usize::MAX,
    ensures
        distance == hamming(
            a@,
            b@,
            8 * (if a@.len() <= b@.len() {
                a@.len()
            } else {
                b@.len()
            }),
        ),
        a@.len() <= b@.len() ==> distance == differing_places(a@, b@, 8 * a@.len()).len(),
        a@.len() >= b@.len() ==> distance == differing_places(a@, b@, 8 * b@.len()).len(),
{
    proof {
        lemma_differing_places(a@, b@, 8 * a@.len());
        lemma_differing_places(a@, b@, 8 * b@.len());
    }
    let n: usize = if a.len() <= b.len() {
        a.len()
    } else {
        b.len()
    };
    let mut distance: usize = 0;
    let mut i: usize = 0;
    while i < n
        invariant
            i <= n,
            n <= a@.len(),
            n <= b@.len(),
            8 * n <= usize::MAX,
            distance == hamming(a@, b@, 8 * (i as nat)),
            distance <= 8 * i,
        decreases n - i,
    {
        proof {
            lemma_byte_distance(a@, b@, i as nat, 8);
            lemma2_to64();
            lemma_ones_xor(a@[i as int] as u32, b@[i as int] as u32, 8);
            lemma_differing_bound(a@[i as int] as nat, b@[i as int] as nat, 8);
        }
        distance = distance + metric_distance(a[i] as u32, b[i] as u32) as usize;
        i = i + 1;
    }
    distance
}

proof fn lemma_differing_bound(x: nat, y: nat, n: nat)
    ensures
        differing_bits(x, y, n) <= n,
    decreases n,
{
    if n > 0 {
        lemma_differing_bound(x / 2, y / 2, (n - 1) as nat);
    }
}

/// The decision for a soft symbol: the upper half of its range means 1.
pub open spec fn decided(symbol: u8) -> bool {
    symbol >= 128
}

/// The packed bits of a block after a hard decision on each symbol.
pub open spec fn is_sliced(hard: Seq<u8>, soft: Seq<u8>) -> bool {
    &&& hard.len() == bytes_for(soft.len() as int)
    &&& forall|i: int|
        0 <= i < 8 * hard.len() ==> #[trigger] bit_at(hard, i) == (i < soft.len() && decided(
            soft[i],
        ))
}

/// Makes a hard decision on each soft symbol.
pub fn slice_hard(soft: &[u8]) -> (hard: Vec<u8>)
    ensures
        is_sliced(hard@, soft@),
        soft@.len() <= 8 * hard@.len() < soft@.len() + 8,
        forall|i: int|
            0 <= i < soft@.len() ==> ((hard@[i / 8] >> ((7 - i % 8) as u8)) & 1u8 == 1u8) == (
            #[trigger] soft@[i] >= 128),
        forall|i: int|
            soft@.len() <= i < 8 * hard@.len() ==> ((#[trigger] hard@[i / 8]) >> ((7 - i
                % 8) as u8)) & 1u8 != 1u8,
{
    let num_bytes: usize = div_ceil_8(soft.len());
    let mut hard: Vec<u8> = vec![0u8; num_bytes];
    assert forall|i: int| 0 <= i < 8 * hard@.len() implies !#[trigger] bit_at(hard@, i) by {
        lemma_low_bit(0, (7 - i % 8) as nat);
        lemma_zero_has_no_bit((7 - i % 8) as nat);
    }
    let mut i: usize = 0;
    while i < soft.len()
        invariant
            i <= soft@.len(),
            hard@.len() == bytes_for(soft@.len() as int),
            forall|k: int|
                0 <= k < 8 * hard@.len() ==> #[trigger] bit_at(hard@, k) == (k < i && decided(
                    soft@[k],
                )),
        decreases soft@.len() - i,
    {
        let ghost before = hard@;
        if soft[i] >= 128 {
            hard[i / 8] = hard[i / 8] | (0x80u8 >> ((i % 8) as u8));
            assert forall|k: int| 0 <= k < 8 * hard@.len() implies #[trigger] bit_at(hard@, k) == (k
                < i + 1 && decided(soft@[k])) by {
                assert(bit_at(before, k) == (k < i && decided(soft@[k])));
                if k / 8 == i as int / 8 {
                    lemma_touch_bit(before[i as int / 8], (i % 8) as u8, (k % 8) as u8);
                }
            }
        }
        i = i + 1;
    }
    assert forall|k: int| 0 <= k < soft@.len() implies ((hard@[k / 8] >> ((7 - k % 8) as u8)) & 1u8
        == 1u8) == (#[trigger] soft@[k] >= 128) by {
        assert(bit_at(hard@, k) == decided(soft@[k]));
    }
    assert forall|k: int| soft@.len() <= k < 8 * hard@.len() implies ((#[trigger] hard@[k / 8]) >> ((
    7 - k % 8) as u8)) & 1u8 != 1u8 by {
        assert(!bit_at(hard@, k));
    }
    hard
}

proof fn lemma_zero_has_no_bit(j: nat)
    ensures
        !nat_bit(0, j),
    decreases j,
{
    if j > 0 {
        lemma_zero_has_no_bit((j - 1) as nat);
    }
}

/// The number of the first `n` sent bits that a hard decision gets wrong.
pub open spec fn wrong_decisions(sent: Seq<u8>, soft: Seq<u8>, n: nat) -> nat
    decreases n,
{
    if n == 0 {
        0
    } else {
        wrong_decisions(sent, soft, (n - 1) as nat) + (if bit_at(sent, n - 1) != decided(
            soft[n - 1],
        ) {
            1nat
        } else {
            0nat
        })
    }
}

proof fn lemma_wrong_places(sent: Seq<u8>, soft: Seq<u8>, n: nat)
    ensures
        wrong_decisions(sent, soft, n) == Seq::new(n, |i: int| i).filter(
            |i: int| ((sent[i / 8] >> ((7 - i % 8) as u8)) & 1u8 == 1u8) != (soft[i] >= 128),
        ).len(),
    decreases n,
{
    let all = Seq::new(n, |i: int| i);
    reveal(Seq::filter);
    if n > 0 {
        lemma_wrong_places(sent, soft, (n - 1) as nat);
        assert(all.drop_last() =~= Seq::new((n - 1) as nat, |i: int| i));
        assert(all.last() == n - 1);
    }
}

/// Counts the channel bits that flipped: the uncoded error count before any
/// decoding.
pub fn count_flips(sent: &[u8], soft: &[u8]) -> (flips: usize)
    requires
        soft@.len() <= 8 * sent@.len(),
    ensures
        flips == wrong_decisions(sent@, soft@, soft@.len()),
        flips == Seq::new(soft@.len(), |i: int| i).filter(
            |i: int|
                ((sent@[i / 8] >> ((7 - i % 8) as u8)) & 1u8 == 1u8) != (soft@[i] >= 128),
        ).len(),
{
    proof {
        lemma_wrong_places(sent@, soft@, soft@.len());
    }
    let mut flips: usize = 0;
    let mut i: usize = 0;
    while i < soft.len()
        invariant
            i <= soft@.len(),
            soft@.len() <= 8 * sent@.len(),
            flips <= i,
            flips == wrong_decisions(sent@, soft@, i as nat),
        decreases soft@.len() - i,
    {
        proof {
            lemma_touch_bit(sent@[i as int / 8], (i % 8) as u8, (i % 8) as u8);
        }
        let sent_bit: bool = sent[i / 8] & (0x80u8 >> ((i % 8) as u8)) != 0;
        if sent_bit != (soft[i] >= 128) {
            flips = flips + 1;
        }
        i = i + 1;
    }
    flips
}

/// Bit `i` of a packed block.
pub fn sent_bit(bytes: &[u8], i: usize) -> (bit: bool)
    requires
        i < 8 * bytes@.len(),
    ensures
        bit == bit_at(bytes@, i as int),
        bit == ((bytes@[i as int / 8] >> ((7 - i as int % 8) as u8)) & 1u8 == 1u8),
{
    proof {
        lemma_touch_bit(bytes@[i as int / 8], (i % 8) as u8, (i % 8) as u8);
    }
    bytes[i / 8] & (0x80u8 >> ((i % 8) as u8)) != 0
}

/// The channel flips of a block are the distance between what was sent and what
/// a hard decision makes of what was received.
pub proof fn lemma_flips_are_distance(sent: Seq<u8>, soft: Seq<u8>, hard: Seq<u8>, n: nat)
    requires
        is_sliced(hard, soft),
        n <= soft.len(),
    ensures
        wrong_decisions(sent, soft, n) == hamming(sent, hard, n),
    decreases n,
{
    if n > 0 {
        lemma_flips_are_distance(sent, soft, hard, (n - 1) as nat);
        assert(bit_at(hard, n - 1) == decided(soft[n - 1]));
    }
}

/// One noisy block, ready to feed a decoder repeatedly. Holding the message and
/// its soft and hard channel outputs together lets a benchmark decode the same
/// block many times without regenerating noise.
#[derive(Debug, Clone)]
pub struct TestCase {
    /// The received soft symbols, one 8-bit sample per encoded bit.
    pub soft: Vec<u8>,
    /// The received bits after a hard decision, bit-packed.
    pub hard: Vec<u8>,
    /// The original message that was encoded.
    pub msg: Vec<u8>,
    /// The number of encoded bits in the block.
    pub enc_bits: usize,
}

impl TestCase {
    /// The hard bits follow from the soft symbols.
    pub open spec fn wf(self) -> bool {
        &&& self.enc_bits == self.soft@.len()
        &&& is_sliced(self.hard@, self.soft@)
    }

    /// The case for a message and the soft symbols it was received as.
    pub fn new(msg: Vec<u8>, soft: Vec<u8>) -> (case: TestCase)
        ensures
            case.wf(),
            case.msg == msg,
            case.soft == soft,
            case.enc_bits == soft@.len(),
            soft@.len() <= 8 * case.hard@.len() < soft@.len() + 8,
            forall|i: int|
                0 <= i < soft@.len() ==> ((case.hard@[i / 8] >> ((7 - i % 8) as u8)) & 1u8 == 1u8)
                    == (#[trigger] soft@[i] >= 128),
    {
        let hard: Vec<u8> = slice_hard(&soft);
        let enc_bits: usize = soft.len();
        TestCase { soft, hard, msg, enc_bits }
    }
}

} // verus!
