//! What the channel delivered, and how badly each output of a step fits it.

use super::bit::{bit_at, lemma_low_bit, low_bit, BitReader};
use super::trellis::{bounded_cost, dist_upto, nat_bit};
use super::util;
use super::util::{differing_bits, lemma_ones_xor};
use vstd::arithmetic::power2::{lemma2_to64, lemma_pow2_strictly_increases, lemma_pow2_unfold, pow2};
use vstd::prelude::*;

verus! {

/// Whether encoded bit `k` is flagged in the erasure mask.
pub open spec fn is_erased(mask: Option<Seq<u8>>, k: int) -> bool {
    match mask {
        Some(m) => bit_at(m, k),
        None => false,
    }
}

/// The cost of a hard decision: 1 where the value differs from the received
/// bit. An erased bit costs nothing either way.
pub open spec fn hard_cost(block: Seq<u8>, mask: Option<Seq<u8>>) -> spec_fn(int, bool) -> nat {
    |k: int, b: bool|
        if is_erased(mask, k) || bit_at(block, k) == b {
            0nat
        } else {
            1nat
        }
}

/// The soft symbol halfway between a confident 0 and a confident 1. It carries no
/// information, as if the bit were flagged as erased.
pub const NEUTRAL_SYMBOL: u8 = 128;

/// The cost of a soft decision: the distance from 255 for a set bit, from 0 for
/// a clear one. An erased bit costs nothing either way, and neither does the
/// neutral symbol.
pub open spec fn soft_cost(symbols: Seq<u8>, mask: Option<Seq<u8>>) -> spec_fn(int, bool) -> nat {
    |k: int, b: bool|
        if is_erased(mask, k) || symbols[k] == NEUTRAL_SYMBOL {
            0nat
        } else if b {
            (255 - symbols[k]) as nat
        } else {
            symbols[k] as nat
        }
}

/// A symbol of 128 favours neither value of its bit.
pub proof fn lemma_neutral_symbol(symbols: Seq<u8>, mask: Option<Seq<u8>>, k: int)
    requires
        symbols[k] == 128,
    ensures
        soft_cost(symbols, mask)(k, true) == soft_cost(symbols, mask)(k, false),
{
}

/// A soft symbol costs a set bit its distance from 255 and a clear bit its distance
/// from 0, whatever the mask holds elsewhere: above 128 a set bit is the cheaper one,
/// below 128 a clear one. Only a flag of its own, or a value of 128, takes the
/// symbol out.
pub proof fn lemma_soft_symbol(symbols: Seq<u8>, mask: Option<Seq<u8>>, k: int)
    ensures
        match mask {
            Some(m) => if (m[k / 8] >> ((7 - k % 8) as u8)) & 1u8 == 1u8 {
                &&& soft_cost(symbols, mask)(k, true) == 0
                &&& soft_cost(symbols, mask)(k, false) == 0
            } else {
                &&& soft_cost(symbols, mask)(k, true) == soft_cost(symbols, None)(k, true)
                &&& soft_cost(symbols, mask)(k, false) == soft_cost(symbols, None)(k, false)
            },
            None => true,
        },
        symbols[k] == 128 ==> soft_cost(symbols, None)(k, true) == 0 && soft_cost(symbols, None)(
            k,
            false,
        ) == 0,
        symbols[k] != 128 ==> soft_cost(symbols, None)(k, true) == 255 - symbols[k] && soft_cost(
            symbols,
            None,
        )(k, false) == symbols[k],
        symbols[k] > 128 ==> soft_cost(symbols, None)(k, true) < soft_cost(symbols, None)(k, false),
        symbols[k] < 128 ==> soft_cost(symbols, None)(k, true) > soft_cost(symbols, None)(k, false),
{
}

/// A hard bit costs the other value 1 and itself nothing. A bit that is flagged in
/// the mask, of whatever length, costs nothing either way, and the flags change
/// nothing about the other bits.
pub proof fn lemma_hard_bit(block: Seq<u8>, mask: Option<Seq<u8>>, k: int)
    ensures
        match mask {
            Some(m) => if (m[k / 8] >> ((7 - k % 8) as u8)) & 1u8 == 1u8 {
                &&& hard_cost(block, mask)(k, true) == 0
                &&& hard_cost(block, mask)(k, false) == 0
            } else {
                &&& hard_cost(block, mask)(k, true) == hard_cost(block, None)(k, true)
                &&& hard_cost(block, mask)(k, false) == hard_cost(block, None)(k, false)
            },
            None => true,
        },
        if (block[k / 8] >> ((7 - k % 8) as u8)) & 1u8 == 1u8 {
            &&& hard_cost(block, None)(k, true) == 0
            &&& hard_cost(block, None)(k, false) == 1
        } else {
            &&& hard_cost(block, None)(k, true) == 1
            &&& hard_cost(block, None)(k, false) == 0
        },
{
}

pub proof fn lemma_costs_bounded(bytes: Seq<u8>, mask: Option<Seq<u8>>)
    ensures
        bounded_cost(hard_cost(bytes, mask)),
        bounded_cost(soft_cost(bytes, mask)),
{
}

/// Received data: packed hard bits or one soft symbol per encoded bit, with an
/// optional packed mask of erased bits.
#[derive(Debug, Clone, Copy)]
pub enum ConvolutionalError<'a> {
    Hard { encoded: BitReader<'a>, erasure: Option<BitReader<'a>> },
    Soft { symbols: &'a [u8], at: usize, erasure: Option<BitReader<'a>> },
}

/// The mask that an optional reader reads.
pub open spec fn mask_of(erasure: Option<BitReader>) -> Option<Seq<u8>> {
    match erasure {
        Some(r) => Some(r.buf@),
        None => None,
    }
}

/// An optional mask reader is at position `pos` and has bits up to `end`.
pub open spec fn mask_ready(erasure: Option<BitReader>, pos: int, end: int) -> bool {
    match erasure {
        Some(r) => r.wf() && r.pos() == pos && end <= 8 * r.buf@.len(),
        None => true,
    }
}

/// One cost per encoded bit of a step.
pub open spec fn costs_match(
    costs: Seq<u16>,
    cost: spec_fn(int, bool) -> nat,
    pos: int,
    b: bool,
    n: int,
) -> bool {
    forall|j: int| 0 <= j < n ==> #[trigger] costs[j] == cost(pos + j, b)
}

/// Reads the next `rate` bits of the mask, or zeros where there is none.
fn read_mask(erasure: &mut Option<BitReader>, rate: u32, Ghost(pos): Ghost<int>, Ghost(end): Ghost<
    int,
>) -> (flags: u8)
    requires
        1 <= rate <= 8,
        mask_ready(*old(erasure), pos, end),
        pos + rate <= end,
    ensures
        mask_of(*final(erasure)) == mask_of(*old(erasure)),
        mask_ready(*final(erasure), pos + rate, end),
        forall|j: int|
            0 <= j < rate ==> #[trigger] low_bit(flags, j) == is_erased(
                mask_of(*old(erasure)),
                pos + j,
            ),
        forall|j: int|
            0 <= j < rate ==> #[trigger] low_bit(flags, j) == match *old(erasure) {
                Some(reader) => bit_at(reader.buf@, pos + j),
                None => false,
            },
{
    match erasure {
        Some(reader) => reader.read(rate as usize),
        None => {
            proof {
                assert forall|j: int| 0 <= j < rate implies !(#[trigger] low_bit(0, j)) by {
                    lemma_low_bit(0, j as nat);
                    lemma_zero_bit(j as nat);
                }
            }
            0
        },
    }
}

pub proof fn lemma_zero_bit(j: nat)
    ensures
        !nat_bit(0, j),
    decreases j,
{
    if j > 0 {
        lemma_zero_bit((j - 1) as nat);
    }
}

/// Whether bit `j` of `value` is set.
fn has_bit(value: u8, j: usize) -> (set: bool)
    requires
        j < 8,
    ensures
        set == low_bit(value, j as int),
{
    (value >> (j as u8)) & 1 == 1
}

/// The distances of all outputs from per-bit costs.
fn fill_from_costs(
    distances: &mut [u16],
    count: usize,
    rate: u32,
    zero: &[u16; 8],
    one: &[u16; 8],
    Ghost(cost): Ghost<spec_fn(int, bool) -> nat>,
    Ghost(pos): Ghost<int>,
)
    requires
        1 <= rate <= 8,
        count == pow2(rate as nat),
        old(distances)@.len() >= count,
        bounded_cost(cost),
        costs_match(zero@, cost, pos, false, rate as int),
        costs_match(one@, cost, pos, true, rate as int),
    ensures
        final(distances)@.len() == old(distances)@.len(),
        forall|o: int|
            0 <= o < count ==> #[trigger] final(distances)@[o] == dist_upto(
                cost,
                pos,
                o as nat,
                rate as nat,
            ),
{
    let ghost len = distances@.len();
    let mut i: usize = 0;
    while i < count
        invariant
            1 <= rate <= 8,
            i <= count <= distances@.len(),
            distances@.len() == len,
            bounded_cost(cost),
            costs_match(zero@, cost, pos, false, rate as int),
            costs_match(one@, cost, pos, true, rate as int),
            forall|o: int|
                0 <= o < i ==> #[trigger] distances@[o] == dist_upto(
                    cost,
                    pos,
                    o as nat,
                    rate as nat,
                ),
        decreases count - i,
    {
        let mut dist: u16 = 0;
        let mut rest: usize = i;
        let mut j: usize = 0;
        while j < rate as usize
            invariant
                1 <= rate <= 8,
                j <= rate,
                bounded_cost(cost),
                costs_match(zero@, cost, pos, false, rate as int),
                costs_match(one@, cost, pos, true, rate as int),
                forall|m: nat| #[trigger] nat_bit(rest as nat, m) == nat_bit(i as nat, j as nat + m),
                dist == dist_upto(cost, pos, i as nat, j as nat),
                dist <= 255 * j,
            decreases rate - j,
        {
            let ghost before = rest as nat;
            assert(nat_bit(rest as nat, 0) == nat_bit(i as nat, j as nat + 0));
            assert(cost(pos + j, true) <= 255 && cost(pos + j, false) <= 255);
            assert(zero@[j as int] == cost(pos + j, false));
            assert(one@[j as int] == cost(pos + j, true));
            let term: u16 = if rest % 2 == 1 {
                one[j]
            } else {
                zero[j]
            };
            dist = dist + term;
            rest = rest / 2;
            proof {
                assert forall|m: nat| #[trigger] nat_bit(rest as nat, m) == nat_bit(
                    i as nat,
                    (j + 1) as nat + m,
                ) by {
                    assert(nat_bit(before, m + 1) == nat_bit(i as nat, j as nat + (m + 1)));
                    assert(j as nat + (m + 1) == (j + 1) as nat + m);
                }
            }
            j = j + 1;
        }
        distances[i] = dist;
        i = i + 1;
    }
}

/// Counting differing bits from the low end or the high end comes to the same.
proof fn lemma_hamming(
    block: Seq<u8>,
    out: nat,
    pos: int,
    i: nat,
    n: nat,
)
    requires
        forall|j: nat| j < n ==> #[trigger] nat_bit(out, j) == bit_at(block, pos + j),
    ensures
        dist_upto(hard_cost(block, None), pos, i, n) == differing_bits(i, out, n),
    decreases n,
{
    if n > 0 {
        let m = (n - 1) as nat;
        lemma_hamming(block, out, pos, i, m);
        lemma_differing_last(i, out, n);
        assert(nat_bit(out, m) == bit_at(block, pos + m));
    }
}

proof fn lemma_differing_last(x: nat, y: nat, n: nat)
    requires
        n > 0,
    ensures
        differing_bits(x, y, n) == differing_bits(x, y, (n - 1) as nat) + if nat_bit(
            x,
            (n - 1) as nat,
        ) != nat_bit(y, (n - 1) as nat) {
            1nat
        } else {
            0nat
        },
    decreases n,
{
    if n > 1 {
        lemma_differing_last(x / 2, y / 2, (n - 1) as nat);
    } else {
        assert(differing_bits(x / 2, y / 2, 0) == 0);
        assert(differing_bits(x, y, 0) == 0);
    }
}

impl<'a> ConvolutionalError<'a> {
    pub open spec fn cost(self) -> spec_fn(int, bool) -> nat {
        match self {
            ConvolutionalError::Hard { encoded, erasure } => hard_cost(
                encoded.buf@,
                mask_of(erasure),
            ),
            ConvolutionalError::Soft { symbols, at, erasure } => soft_cost(
                symbols@,
                mask_of(erasure),
            ),
        }
    }

    /// The number of encoded bits consumed.
    pub open spec fn pos(self) -> int {
        match self {
            ConvolutionalError::Hard { encoded, erasure } => encoded.pos(),
            ConvolutionalError::Soft { symbols, at, erasure } => at as int,
        }
    }

    /// Data and mask are in step, and both reach to bit `end`.
    pub open spec fn ready(self, end: int) -> bool {
        match self {
            ConvolutionalError::Hard { encoded, erasure } => {
                &&& encoded.wf()
                &&& end <= 8 * encoded.buf@.len()
                &&& mask_ready(erasure, encoded.pos(), end)
            },
            ConvolutionalError::Soft { symbols, at, erasure } => {
                &&& end <= symbols@.len()
                &&& at <= symbols@.len()
                &&& mask_ready(erasure, at as int, end)
            },
        }
    }

    /// Consumes one step's worth of received data: for each encoded bit of the
    /// step the cost of a clear and of a set bit, and zeros after them.
    pub(crate) fn read_costs(&mut self, rate: u32, Ghost(end): Ghost<int>) -> (costs: (
        [u16; 8],
        [u16; 8],
    ))
        requires
            1 <= rate <= 8,
            old(self).ready(end),
            old(self).pos() + rate <= end,
        ensures
            final(self).ready(end),
            final(self).pos() == old(self).pos() + rate,
            final(self).cost() == old(self).cost(),
            costs_match(costs.0@, old(self).cost(), old(self).pos(), false, rate as int),
            costs_match(costs.1@, old(self).cost(), old(self).pos(), true, rate as int),
            forall|j: int| rate <= j < 8 ==> #[trigger] costs.0@[j] == 0,
            forall|j: int| rate <= j < 8 ==> #[trigger] costs.1@[j] == 0,
            match *old(self) {
                ConvolutionalError::Hard { encoded, erasure } => forall|j: int|
                    0 <= j < rate ==> {
                        let k = encoded.pos() + j;
                        let counted = erasure matches Some(flags) ==> !bit_at(flags.buf@, k);
                        &&& #[trigger] costs.0@[j] == if counted && bit_at(encoded.buf@, k) {
                            1int
                        } else {
                            0
                        }
                        &&& costs.1@[j] == if counted && !bit_at(encoded.buf@, k) {
                            1int
                        } else {
                            0
                        }
                    },
                ConvolutionalError::Soft { symbols, at, erasure } => forall|j: int|
                    0 <= j < rate ==> {
                        let k = at + j;
                        let counted = (erasure matches Some(flags) ==> !bit_at(flags.buf@, k))
                            && symbols@[k] != 128;
                        &&& #[trigger] costs.0@[j] == if counted {
                            symbols@[k] as int
                        } else {
                            0
                        }
                        &&& costs.1@[j] == if counted {
                            255 - symbols@[k]
                        } else {
                            0
                        }
                    },
            },
    {
        let ghost pos = self.pos();
        let mut zero: [u16; 8] = [0u16; 8];
        let mut one: [u16; 8] = [0u16; 8];
        let mut j: usize = 0;
        match self {
            ConvolutionalError::Hard { encoded, erasure } => {
                let ghost block = encoded.buf@;
                let ghost mask = mask_of(*erasure);
                let ghost cost = hard_cost(block, mask);
                let outputs: u8 = encoded.read(rate as usize);
                let flags: u8 = read_mask(erasure, rate, Ghost(pos), Ghost(end));
                while j < rate as usize
                    invariant
                        1 <= rate <= 8,
                        j <= rate,
                        cost == hard_cost(block, mask),
                        forall|k: int|
                            0 <= k < 8 ==> #[trigger] low_bit(outputs, k) == (k < rate && bit_at(
                                block,
                                pos + k,
                            )),
                        forall|k: int|
                            0 <= k < rate ==> #[trigger] low_bit(flags, k) == is_erased(
                                mask,
                                pos + k,
                            ),
                        costs_match(zero@, cost, pos, false, j as int),
                        costs_match(one@, cost, pos, true, j as int),
                        forall|k: int| j <= k < 8 ==> #[trigger] zero@[k] == 0,
                        forall|k: int| j <= k < 8 ==> #[trigger] one@[k] == 0,
                    decreases rate - j,
                {
                    assert(low_bit(outputs, j as int) == bit_at(block, pos + j));
                    assert(low_bit(flags, j as int) == is_erased(mask, pos + j));
                    if !has_bit(flags, j) {
                        if has_bit(outputs, j) {
                            zero[j] = 1;
                        } else {
                            one[j] = 1;
                        }
                    }
                    j = j + 1;
                }
            },
            ConvolutionalError::Soft { symbols, at, erasure } => {
                let ghost mask = mask_of(*erasure);
                let ghost data = symbols@;
                let ghost cost = soft_cost(data, mask);
                let from: usize = *at;
                let flags: u8 = read_mask(erasure, rate, Ghost(pos), Ghost(end));
                while j < rate as usize
                    invariant
                        1 <= rate <= 8,
                        j <= rate,
                        from == pos,
                        from + rate <= symbols@.len(),
                        symbols@ == data,
                        cost == soft_cost(data, mask),
                        forall|k: int|
                            0 <= k < rate ==> #[trigger] low_bit(flags, k) == is_erased(
                                mask,
                                pos + k,
                            ),
                        costs_match(zero@, cost, pos, false, j as int),
                        costs_match(one@, cost, pos, true, j as int),
                        forall|k: int| j <= k < 8 ==> #[trigger] zero@[k] == 0,
                        forall|k: int| j <= k < 8 ==> #[trigger] one@[k] == 0,
                    decreases rate - j,
                {
                    assert(low_bit(flags, j as int) == is_erased(mask, pos + j));
                    let len: usize = symbols.len();
                    let symbol: u8 = symbols[from + j];
                    if !has_bit(flags, j) && symbol != NEUTRAL_SYMBOL {
                        zero[j] = symbol as u16;
                        one[j] = 255 - symbol as u16;
                    }
                    j = j + 1;
                }
                let len: usize = symbols.len();
                *at = from + rate as usize;
            },
        }
        (zero, one)
    }

    /// Consumes one step's worth of received data and fills `distances[o]` with
    /// the cost of output `o`.
    pub(crate) fn fill_next_distances(&mut self, distances: &mut [u16], rate: u32, Ghost(end): Ghost<
        int,
    >)
        requires
            1 <= rate <= 8,
            old(distances)@.len() >= pow2(rate as nat),
            old(self).ready(end),
            old(self).pos() + rate <= end,
            bounded_cost(old(self).cost()),
        ensures
            final(self).ready(end),
            final(self).pos() == old(self).pos() + rate,
            final(self).cost() == old(self).cost(),
            final(distances)@.len() == old(distances)@.len(),
            forall|o: int|
                0 <= o < pow2(rate as nat) ==> #[trigger] final(distances)@[o] == dist_upto(
                    old(self).cost(),
                    old(self).pos(),
                    o as nat,
                    rate as nat,
                ),
    {
        let ghost pos = self.pos();
        let ghost cost = self.cost();
        let ghost len = distances@.len();
        proof {
            lemma2_to64();
            if rate < 8 {
                lemma_pow2_strictly_increases(rate as nat, 8);
            }
        }
        let count: usize = util::num_states_for_order(rate) as usize;
        if let ConvolutionalError::Hard { encoded, erasure } = self {
            if erasure.is_none() {
                // without erasures a cost is the number of differing bits
                let ghost block = encoded.buf@;
                let outputs: u8 = encoded.read(rate as usize);
                proof {
                    assert forall|j: nat| j < rate implies #[trigger] nat_bit(outputs as nat, j)
                        == bit_at(block, pos + j) by {
                        lemma_low_bit(outputs, j);
                        assert(low_bit(outputs, j as int) == (j < rate && bit_at(block, pos + j)));
                    }
                    lemma_read_bound(outputs, rate as nat);
                }
                let mut i: usize = 0;
                while i < count
                    invariant
                        1 <= rate <= 8,
                        i <= count <= distances@.len(),
                        distances@.len() == len,
                        count == pow2(rate as nat) <= 256,
                        outputs < pow2(rate as nat),
                        forall|j: nat|
                            j < rate ==> #[trigger] nat_bit(outputs as nat, j) == bit_at(
                                block,
                                pos + j,
                            ),
                        forall|o: int|
                            0 <= o < i ==> #[trigger] distances@[o] == dist_upto(
                                hard_cost(block, None),
                                pos,
                                o as nat,
                                rate as nat,
                            ),
                    decreases count - i,
                {
                    proof {
                        lemma_ones_xor(i as u32, outputs as u32, rate as nat);
                        lemma_hamming(block, outputs as nat, pos, i as nat, rate as nat);
                    }
                    distances[i] = util::metric_distance(i as u32, outputs as u32) as u16;
                    i = i + 1;
                }
                return ;
            }
        }
        let (zero, one) = self.read_costs(rate, Ghost(end));
        fill_from_costs(distances, count, rate, &zero, &one, Ghost(cost), Ghost(pos));
    }
}

/// A value read as `n` bits is below 2^n.
proof fn lemma_read_bound(v: u8, n: nat)
    requires
        1 <= n <= 8,
        forall|j: int| 0 <= j < 8 ==> (#[trigger] low_bit(v, j) ==> j < n),
    ensures
        v < pow2(n),
{
    lemma2_to64();
    assert forall|j: nat| n <= j < 8 implies !(#[trigger] nat_bit(v as nat, j)) by {
        lemma_low_bit(v, j);
    }
    lemma_bits_bound(v as nat, n, 8);
}

proof fn lemma_bits_bound(v: nat, n: nat, m: nat)
    requires
        v < pow2(m),
        n <= m,
        forall|j: nat| n <= j < m ==> !(#[trigger] nat_bit(v, j)),
    ensures
        v < pow2(n),
    decreases m,
{
    if m > 0 {
        lemma_pow2_unfold(m);
        let k = (m - 1) as nat;
        if n > 0 {
            assert forall|j: nat| n - 1 <= j < k implies !(#[trigger] nat_bit(v / 2, j)) by {
                assert(!nat_bit(v, j + 1));
            }
            lemma_bits_bound(v / 2, (n - 1) as nat, k);
            lemma_pow2_unfold(n);
        } else {
            assert forall|j: nat| 0 <= j < k implies !(#[trigger] nat_bit(v / 2, j)) by {
                assert(!nat_bit(v, j + 1));
            }
            lemma_bits_bound(v / 2, 0, k);
            lemma2_to64();
            assert(!nat_bit(v, 0));
        }
    }
}

} // verus!
