//! The decoder's working tables: path metrics and branch costs.

use super::trellis::Trellis;
use super::util;
use super::viterbi::Run;
use std::collections::HashMap;
use vstd::arithmetic::power2::{lemma_pow2_pos, lemma_pow2_unfold, pow2};
use vstd::prelude::*;
use vstd::slice::slice_subrange;

verus! {

/// Path metrics of the current and the previous time slice.
#[derive(Debug, Clone)]
pub struct ConvolutionalErrorTable {
    pub errors: Vec<u16>,
    pub previous_errors: Vec<u16>,
}

impl ConvolutionalErrorTable {
    pub fn new(num_states: usize) -> (table: ConvolutionalErrorTable)
        ensures
            table.errors@ == Seq::new(num_states as nat, |i: int| 0u16),
            table.previous_errors@ == Seq::new(num_states as nat, |i: int| 0u16),
    {
        let table = ConvolutionalErrorTable {
            errors: vec![0u16; num_states],
            previous_errors: vec![0u16; num_states],
        };
        assert(table.errors@ =~= Seq::new(num_states as nat, |i: int| 0u16));
        assert(table.previous_errors@ =~= Seq::new(num_states as nat, |i: int| 0u16));
        table
    }

    /// Makes the current slice the previous one.
    pub fn swap(&mut self)
        ensures
            final(self).errors == old(self).previous_errors,
            final(self).previous_errors == old(self).errors,
    {
        core::mem::swap(&mut self.errors, &mut self.previous_errors);
    }

    /// Sets all metrics to zero.
    pub fn reset(&mut self)
        ensures
            final(self).errors@ == Seq::new(old(self).errors@.len(), |i: int| 0u16),
            final(self).previous_errors@ == Seq::new(
                old(self).previous_errors@.len(),
                |i: int| 0u16,
            ),
    {
        let ghost start = *self;
        let mut i: usize = 0;
        while i < self.errors.len()
            invariant
                i <= self.errors@.len(),
                self.errors@.len() == start.errors@.len(),
                self.previous_errors == start.previous_errors,
                forall|k: int| 0 <= k < i ==> #[trigger] self.errors@[k] == 0,
            decreases self.errors@.len() - i,
        {
            self.errors[i] = 0;
            i = i + 1;
        }
        let mut j: usize = 0;
        while j < self.previous_errors.len()
            invariant
                j <= self.previous_errors@.len(),
                self.previous_errors@.len() == start.previous_errors@.len(),
                self.errors@.len() == start.errors@.len(),
                forall|k: int| 0 <= k < self.errors@.len() ==> #[trigger] self.errors@[k] == 0,
                forall|k: int| 0 <= k < j ==> #[trigger] self.previous_errors@[k] == 0,
            decreases self.previous_errors@.len() - j,
        {
            self.previous_errors[j] = 0;
            j = j + 1;
        }
        assert(self.errors@ =~= Seq::new(start.errors@.len(), |i: int| 0u16));
        assert(self.previous_errors@ =~= Seq::new(start.previous_errors@.len(), |i: int| 0u16));
    }
}

/// The table of an output for each register value.
pub open spec fn is_poly_table(table: Seq<u16>, code: Trellis) -> bool {
    &&& table.len() == pow2(code.order)
    &&& forall|s: int| 0 <= s < table.len() ==> #[trigger] table[s] == code.output(s)
    &&& forall|s: int| 0 <= s < table.len() ==> #[trigger] table[s] < pow2(code.rate)
}

/// The costs of all outputs at step `t`.
pub open spec fn is_distances(distances: Seq<u16>, run: Run, t: int) -> bool {
    &&& distances.len() >= pow2(run.code.rate)
    &&& forall|o: int|
        0 <= o < pow2(run.code.rate) ==> #[trigger] distances[o] == run.code.dist(
            run.cost,
            t,
            o as nat,
        )
}

/// Two costs in one word, the first in its low half.
pub open spec fn pack(first: u16, second: u16) -> u32 {
    (second as u32) << 16 | first as u32
}

/// The low half of a word.
pub open spec fn low_half(x: u32) -> u16 {
    (x % 0x1_0000) as u16
}

/// The high half of a word.
pub open spec fn high_half(x: u32) -> u16 {
    (x / 0x1_0000) as u16
}

/// Both halves can be read back.
pub proof fn lemma_pack(first: u16, second: u16)
    ensures
        low_half(pack(first, second)) == first,
        high_half(pack(first, second)) == second,
{
    assert((((second as u32) << 16 | first as u32) % 0x1_0000) as u16 == first && (((second as u32)
        << 16 | first as u32) / 0x1_0000) as u16 == second) by (bit_vector);
}

/// Branch costs for pairs of registers that differ in their newest bit. Many
/// pairs share the same two outputs, so each distinct pair of outputs is kept
/// once, under a compact key.
#[derive(Debug, Clone)]
pub struct ConvolutionalPairTable {
    keys: Vec<u32>,
    outputs: Vec<u32>,
    distances: Vec<u32>,
    output_mask: u32,
    output_width: u32,
}

impl ConvolutionalPairTable {
    /// The key of each pair of registers.
    pub closed spec fn key(self, i: int) -> int {
        self.keys@[i] as int
    }

    /// The costs under each key.
    pub closed spec fn packed(self) -> Seq<u32> {
        self.distances@
    }

    /// Pair `i` holds the outputs of registers `2 * i` and `2 * i + 1`.
    pub closed spec fn wf(self, poly_table: Seq<u16>, rate: nat) -> bool {
        &&& self.output_width == rate
        &&& self.reads(pow2(rate) as int)
        &&& 2 * self.keys@.len() == poly_table.len()
        &&& forall|i: int|
            0 <= i < self.keys@.len() ==> {
                &&& (#[trigger] self.keys@[i]) < self.outputs@.len()
                &&& self.outputs@[self.keys@[i] as int] == poly_table[2 * i + 1] * pow2(rate)
                    + poly_table[2 * i]
                &&& poly_table[2 * i] < pow2(rate)
                &&& poly_table[2 * i + 1] < pow2(rate)
            }
    }

    /// Only the first `n` costs are read.
    pub closed spec fn reads(self, n: int) -> bool {
        let p = pow2(self.output_width as nat) as int;
        &&& 1 <= self.output_width <= 16
        &&& self.output_mask == p - 1
        &&& self.distances@.len() == self.outputs@.len()
        &&& self.outputs@.len() <= 65536
        &&& forall|k: int|
            0 <= k < self.outputs@.len() ==> (#[trigger] self.outputs@[k]) as int % p < n
                && self.outputs@[k] as int / p < n
    }

    /// The cost of register `2 * i`.
    pub open spec fn even(self, i: int) -> u16 {
        low_half(self.packed()[self.key(i)])
    }

    /// The cost of register `2 * i + 1`.
    pub open spec fn odd(self, i: int) -> u16 {
        high_half(self.packed()[self.key(i)])
    }

    /// Every pair's word holds the costs of its two outputs.
    pub open spec fn holds(self, poly_table: Seq<u16>, distances: Seq<u16>) -> bool {
        forall|i: int|
            0 <= 2 * i < poly_table.len() ==> self.packed()[#[trigger] self.key(i)] == pack(
                distances[poly_table[2 * i] as int],
                distances[poly_table[2 * i + 1] as int],
            )
    }

    /// Only the costs of outputs are read.
    pub proof fn lemma_reads(self, poly_table: Seq<u16>, rate: nat, n: int)
        requires
            self.wf(poly_table, rate),
            pow2(rate) <= n,
        ensures
            self.reads(n),
    {
    }

    /// The halves of the words are the costs.
    pub proof fn lemma_halves(self, poly_table: Seq<u16>, distances: Seq<u16>)
        requires
            self.holds(poly_table, distances),
        ensures
            forall|i: int|
                0 <= 2 * i < poly_table.len() ==> #[trigger] self.even(i)
                    == distances[poly_table[2 * i] as int],
            forall|i: int|
                0 <= 2 * i < poly_table.len() ==> #[trigger] self.odd(i)
                    == distances[poly_table[2 * i + 1] as int],
    {
        assert forall|i: int| 0 <= 2 * i < poly_table.len() implies #[trigger] self.even(i)
            == distances[poly_table[2 * i] as int] && self.odd(i) == distances[poly_table[2 * i
            + 1] as int] by {
            assert(self.packed()[self.key(i)] == pack(
                distances[poly_table[2 * i] as int],
                distances[poly_table[2 * i + 1] as int],
            ));
            lemma_pack(
                distances[poly_table[2 * i] as int],
                distances[poly_table[2 * i + 1] as int],
            );
        }
        assert forall|i: int| 0 <= 2 * i < poly_table.len() implies #[trigger] self.odd(i)
            == distances[poly_table[2 * i + 1] as int] by {
            assert(self.even(i) == distances[poly_table[2 * i] as int]);
        }
    }

    pub fn new(rate: u32, order: u32, poly_table: &[u16]) -> (table: ConvolutionalPairTable)
        requires
            1 <= rate <= 16,
            1 <= order <= 16,
            poly_table@.len() == pow2(order as nat),
            forall|s: int|
                0 <= s < poly_table@.len() ==> #[trigger] poly_table@[s] < pow2(rate as nat),
        ensures
            table.wf(poly_table@, rate as nat),
            table.reads(pow2(rate as nat) as int),
    {
        broadcast use vstd::std_specs::hash::group_hash_axioms;

        proof {
            util::lemma_pow2_16(order as nat);
            util::lemma_pow2_16(rate as nat);
            lemma_pow2_pos(rate as nat);
            lemma_pow2_unfold(order as nat);
        }
        let ghost p = pow2(rate as nat) as int;
        let output_count: u32 = util::num_states_for_order(rate);
        let num_pairs: usize = poly_table.len() / 2;
        let mut keys: Vec<u32> = Vec::with_capacity(num_pairs);
        let mut outputs: Vec<u32> = Vec::new();
        let mut outputs_lookup: HashMap<u32, u32> = HashMap::new();
        let mut i: usize = 0;
        while i < num_pairs
            invariant
                i <= num_pairs,
                num_pairs <= 32768,
                2 * num_pairs == poly_table@.len(),
                output_count == p,
                p == pow2(rate as nat),
                1 <= p <= 65536,
                forall|s: int| 0 <= s < poly_table@.len() ==> #[trigger] poly_table@[s] < p,
                keys@.len() == i,
                outputs@.len() <= i,
                forall|k: int|
                    0 <= k < outputs@.len() ==> (#[trigger] outputs@[k]) as int % p < p
                        && outputs@[k] as int / p < p,
                forall|v: u32| #[trigger]
                    outputs_lookup@.contains_key(v) ==> outputs_lookup@[v] < outputs@.len()
                        && outputs@[outputs_lookup@[v] as int] == v,
                forall|k: int|
                    0 <= k < i ==> {
                        &&& (#[trigger] keys@[k]) < outputs@.len()
                        &&& outputs@[keys@[k] as int] == poly_table@[2 * k + 1] * p + poly_table@[2
                            * k]
                    },
            decreases num_pairs - i,
        {
            let first: u32 = poly_table[2 * i] as u32;
            let second: u32 = poly_table[2 * i + 1] as u32;
            assert(second * p + first < p * p && 0 <= second * p && p * p <= 0x1_0000_0000)
                by (nonlinear_arith)
                requires
                    0 <= first < p,
                    0 <= second < p,
                    1 <= p <= 65536,
            ;
            let output: u32 = second * output_count + first;
            proof {
                vstd::arithmetic::div_mod::lemma_fundamental_div_mod_converse(
                    output as int,
                    p,
                    second as int,
                    first as int,
                );
            }
            let key: u32 = match outputs_lookup.get(&output) {
                Some(known) => *known,
                None => {
                    let fresh: u32 = outputs.len() as u32;
                    outputs.push(output);
                    outputs_lookup.insert(output, fresh);
                    fresh
                },
            };
            keys.push(key);
            i = i + 1;
        }
        let count: usize = outputs.len();
        ConvolutionalPairTable {
            keys,
            distances: vec![0u32; count],
            outputs,
            output_mask: output_count - 1,
            output_width: rate,
        }
    }

    /// The key of each pair of registers.
    pub fn keys(&self) -> (keys: &[u32])
        ensures
            forall|i: int| 0 <= i < keys@.len() ==> #[trigger] keys@[i] == self.key(i),
            forall|poly_table: Seq<u16>, rate: nat| #[trigger]
                self.wf(poly_table, rate) ==> 2 * keys@.len() == poly_table.len(),
    {
        &self.keys
    }

    /// Brings the costs of each pair up to date and hands them out by key.
    pub fn distances(&mut self, distances: &[u16]) -> (packed: &[u32])
        requires
            old(self).reads(distances@.len() as int),
        ensures
            packed@ == final(self).packed(),
            forall|i: int| #[trigger] final(self).key(i) == old(self).key(i),
            final(self).reads(distances@.len() as int),
            forall|poly_table: Seq<u16>, rate: nat| #[trigger]
                old(self).wf(poly_table, rate) ==> {
                    &&& final(self).wf(poly_table, rate)
                    &&& final(self).holds(poly_table, distances@)
                },
    {
        let ghost start = *self;
        let ghost p = pow2(self.output_width as nat) as int;
        proof {
            lemma_pow2_pos(self.output_width as nat);
            util::lemma_pow2_16(self.output_width as nat);
        }
        let width: u32 = self.output_width;
        let mask: u32 = self.output_mask;
        let mut k: usize = 0;
        while k < self.outputs.len()
            invariant
                k <= self.outputs@.len(),
                start.reads(distances@.len() as int),
                self.reads(distances@.len() as int),
                p == pow2(width as nat),
                1 <= p <= 65536,
                1 <= width <= 16,
                mask == p - 1,
                self.keys == start.keys,
                self.outputs == start.outputs,
                self.output_mask == start.output_mask,
                self.output_width == start.output_width == width,
                forall|j: int|
                    0 <= j < k ==> self.distances@[j] == pack(
                        distances@[#[trigger] self.outputs@[j] as int % p],
                        distances@[self.outputs@[j] as int / p],
                    ),
            decreases self.outputs@.len() - k,
        {
            let pair: u32 = self.outputs[k];
            proof {
                assert(self.outputs@[k as int] as int % p < distances@.len());
                lemma_split(pair, width, mask);
            }
            let first: u16 = distances[(pair & mask) as usize];
            let second: u16 = distances[(pair >> width) as usize];
            self.distances[k] = (second as u32) << 16 | first as u32;
            k = k + 1;
        }
        proof {
            assert forall|poly_table: Seq<u16>, rate: nat| #[trigger]
                start.wf(poly_table, rate) implies self.wf(poly_table, rate) && self.holds(
                poly_table,
                distances@,
            ) by {
                assert forall|i: int| 0 <= 2 * i < poly_table.len() implies self.packed()[
                #[trigger] self.key(i)] == pack(
                    distances@[poly_table[2 * i] as int],
                    distances@[poly_table[2 * i + 1] as int],
                ) by {
                    let key = start.keys@[i] as int;
                    let (a, b) = (poly_table[2 * i] as int, poly_table[2 * i + 1] as int);
                    assert(start.outputs@[key] == b * p + a);
                    vstd::arithmetic::div_mod::lemma_fundamental_div_mod_converse(
                        b * p + a,
                        p,
                        b,
                        a,
                    );
                }
            }
        }
        &self.distances
    }

    /// The costs of the four pairs from `i` on, the even register of each first.
    #[inline(always)]
    pub fn get_four(&self, i: usize, Ghost(poly_table): Ghost<Seq<u16>>, Ghost(rate): Ghost<
        nat,
    >) -> (costs: [u16; 8])
        requires
            self.wf(poly_table, rate),
            2 * i + 8 <= poly_table.len() <= 65536,
        ensures
            forall|k: int|
                0 <= k < 8 ==> #[trigger] costs@[k] == if k % 2 == 0 {
                    self.even(i + k / 2)
                } else {
                    self.odd(i + k / 2)
                },
    {
        let keys: &[u32] = slice_subrange(&self.keys, i, i + 4);
        let mut costs: [u16; 8] = [0u16; 8];
        let mut k: usize = 0;
        while k < 4
            invariant
                k <= 4,
                self.wf(poly_table, rate),
                2 * i + 8 <= poly_table.len() <= 65536,
                keys@.len() == 4,
                forall|j: int| 0 <= j < 4 ==> #[trigger] keys@[j] == self.keys@[i + j],
                forall|j: int|
                    0 <= j < 2 * k ==> #[trigger] costs@[j] == if j % 2 == 0 {
                        self.even(i + j / 2)
                    } else {
                        self.odd(i + j / 2)
                    },
            decreases 4 - k,
        {
            assert(keys@[k as int] == self.keys@[i + k]);
            let pair: u32 = self.distances[keys[k] as usize];
            assert(pair as u16 == (pair % 0x1_0000) as u16 && (pair >> 16u32) as u16 == (pair
                / 0x1_0000) as u16) by (bit_vector);
            costs[2 * k] = pair as u16;
            costs[2 * k + 1] = (pair >> 16) as u16;
            k = k + 1;
        }
        costs
    }
}

/// Masking and shifting take a pair of outputs apart.
proof fn lemma_split(pair: u32, width: u32, mask: u32)
    requires
        1 <= width <= 16,
        mask == pow2(width as nat) - 1,
    ensures
        (pair & mask) as int == pair as int % (pow2(width as nat) as int),
        (pair >> width) as int == pair as int / (pow2(width as nat) as int),
{
    vstd::bits::lemma_u32_shr_is_div(pair, width);
    vstd::bits::lemma_u32_low_bits_mask_is_mod(pair, width as nat);
    util::lemma_pow2_16(width as nat);
}

} // verus!
