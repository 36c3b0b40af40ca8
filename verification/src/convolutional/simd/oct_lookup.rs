//! Branch costs for whole groups of states.

use super::lane::{load_eight, Eight, Lane, Vector};
use super::settle::{is_settled, settle_all, sums_fit, BranchCosts};
use std::collections::HashMap;
use vstd::arithmetic::power2::{lemma2_to64, lemma_pow2_adds, lemma_pow2_pos, lemma_pow2_strictly_increases, pow2};
use vstd::prelude::*;
use vstd::slice::slice_subrange;

verus! {

/// Bytes that pick, for each register, the two bytes of its output's cost out of
/// a run of eight costs. Each group of eight registers picks from a copy of its
/// own: copies are 16 bytes apart, and there is one for every eight lanes of the
/// vector.
pub open spec fn is_shuffle(masks: Seq<u8>, poly_table: Seq<u8>, width: int) -> bool {
    &&& masks.len() == 2 * poly_table.len()
    &&& forall|s: int|
        #![trigger poly_table[s]]
        0 <= s < poly_table.len() ==> {
            &&& masks[2 * s] == 2 * poly_table[s] + ((s % width) / 8) * 16
            &&& masks[2 * s + 1] == 2 * poly_table[s] + 1 + ((s % width) / 8) * 16
        }
}

/// Shuffle masks for the three vector widths. They exist for codes of up to
/// three bits per step, whose eight costs fit one shuffle.
#[derive(Clone, Debug)]
pub struct DistanceShuffle {
    pub shuffle8: Vec<u8>,
    pub shuffle16: Vec<u8>,
    pub shuffle32: Vec<u8>,
}

/// Builds the masks for one vector width.
fn shuffle_masks(poly_table: &[u8], width: usize) -> (masks: Vec<u8>)
    requires
        8 <= width <= 32,
        poly_table@.len() % (width as nat) == 0,
        poly_table@.len() <= 65536,
        forall|s: int| 0 <= s < poly_table@.len() ==> #[trigger] poly_table@[s] < 8,
    ensures
        is_shuffle(masks@, poly_table@, width as int),
{
    let num_groups: usize = poly_table.len() / width;
    let ghost len = poly_table@.len() as int;
    let mut masks: Vec<u8> = Vec::with_capacity(2 * poly_table.len());
    proof {
        vstd::arithmetic::div_mod::lemma_fundamental_div_mod(len, width as int);
        assert(num_groups * width == width * num_groups) by (nonlinear_arith);
        assert(0 * width == 0);
    }
    let mut g: usize = 0;
    while g < num_groups
        invariant
            g <= num_groups,
            8 <= width <= 32,
            num_groups * width == len,
            len == poly_table@.len() <= 65536,
            forall|s: int| 0 <= s < poly_table@.len() ==> #[trigger] poly_table@[s] < 8,
            masks@.len() == 2 * (g * width),
            forall|s: int|
                #![trigger poly_table@[s]]
                0 <= s < g * width ==> {
                    &&& masks@[2 * s] == 2 * poly_table@[s] + ((s % (width as int)) / 8) * 16
                    &&& masks@[2 * s + 1] == 2 * poly_table@[s] + 1 + ((s % (width as int)) / 8)
                        * 16
                },
        decreases num_groups - g,
    {
        let ghost first = g * width;
        assert(0 <= first && first + width == (g + 1) * width && (g + 1) * width <= num_groups
            * width) by (nonlinear_arith)
            requires
                first == g * width,
                g + 1 <= num_groups,
                0 <= width,
        ;
        let mut k: usize = 0;
        while k < width
            invariant
                g < num_groups,
                k <= width,
                8 <= width <= 32,
                first == g * width,
                0 <= first,
                first + width <= len,
                len == poly_table@.len() <= 65536,
                forall|s: int| 0 <= s < poly_table@.len() ==> #[trigger] poly_table@[s] < 8,
                masks@.len() == 2 * (first + k),
                forall|s: int|
                    #![trigger poly_table@[s]]
                    0 <= s < first + k ==> {
                        &&& masks@[2 * s] == 2 * poly_table@[s] + ((s % (width as int)) / 8) * 16
                        &&& masks@[2 * s + 1] == 2 * poly_table@[s] + 1 + ((s % (width as int))
                            / 8) * 16
                    },
            decreases width - k,
        {
            let sel: u8 = poly_table[g * width + k];
            let copy: u8 = (k / 8 * 16) as u8;
            proof {
                vstd::arithmetic::div_mod::lemma_fundamental_div_mod_converse(
                    first + k,
                    width as int,
                    g as int,
                    k as int,
                );
            }
            masks.push(2 * sel + copy);
            masks.push(2 * sel + 1 + copy);
            k = k + 1;
        }
        g = g + 1;
    }
    masks
}

/// 2^order registers come in whole groups.
pub proof fn lemma_groups(order: nat, k: nat)
    requires
        k <= order,
    ensures
        pow2(order) % pow2(k) == 0,
{
    lemma_pow2_adds((order - k) as nat, k);
    lemma_pow2_pos(k);
    vstd::arithmetic::div_mod::lemma_mod_multiples_basic(
        pow2((order - k) as nat) as int,
        pow2(k) as int,
    );
}

impl DistanceShuffle {
    /// The masks belong to this table.
    pub open spec fn wf(self, rate: nat, order: nat, poly_table: Seq<u8>) -> bool {
        if rate <= 3 {
            &&& is_shuffle(self.shuffle8@, poly_table, 8)
            &&& order >= 4 ==> is_shuffle(self.shuffle16@, poly_table, 16)
            &&& order < 4 ==> self.shuffle16@.len() == 0
            &&& order >= 5 ==> is_shuffle(self.shuffle32@, poly_table, 32)
            &&& order < 5 ==> self.shuffle32@.len() == 0
        } else {
            &&& self.shuffle8@.len() == 0
            &&& self.shuffle16@.len() == 0
            &&& self.shuffle32@.len() == 0
        }
    }

    pub fn new(rate: u32, order: u32, poly_table: &[u8]) -> (shuffle: DistanceShuffle)
        requires
            3 <= order <= 16,
            poly_table@.len() == pow2(order as nat),
            forall|s: int|
                0 <= s < poly_table@.len() ==> #[trigger] poly_table@[s] < pow2(rate as nat),
        ensures
            shuffle.wf(rate as nat, order as nat, poly_table@),
    {
        proof {
            lemma2_to64();
            if rate < 3 {
                lemma_pow2_strictly_increases(rate as nat, 3);
            }
            if order < 16 {
                lemma_pow2_strictly_increases(order as nat, 16);
            }
            lemma_groups(order as nat, 3);
            if order >= 4 {
                lemma_groups(order as nat, 4);
            }
            if order >= 5 {
                lemma_groups(order as nat, 5);
            }
        }
        let shuffle8: Vec<u8> = if rate <= 3 {
            shuffle_masks(poly_table, 8)
        } else {
            Vec::new()
        };
        let shuffle16: Vec<u8> = if order >= 4 && rate <= 3 {
            shuffle_masks(poly_table, 16)
        } else {
            Vec::new()
        };
        let shuffle32: Vec<u8> = if order >= 5 && rate <= 3 {
            shuffle_masks(poly_table, 32)
        } else {
            Vec::new()
        };
        DistanceShuffle { shuffle8, shuffle16, shuffle32 }
    }

    /// The masks for a vector width.
    pub open spec fn masks_for(self, lane: Lane) -> Seq<u8> {
        match lane {
            Lane::Lane128 => self.shuffle8@,
            Lane::Lane256 => self.shuffle16@,
            Lane::Lane512 => self.shuffle32@,
        }
    }

    pub fn shuffle_masks(&self, lane: Lane) -> (masks: &[u8])
        ensures
            masks@ == self.masks_for(lane),
    {
        match lane {
            Lane::Lane128 => &self.shuffle8,
            Lane::Lane256 => &self.shuffle16,
            Lane::Lane512 => &self.shuffle32,
        }
    }
}

/// Byte `i` of four copies of eight costs, each low byte first.
pub open spec fn spread_byte(dist: Seq<u16>, i: int) -> int {
    let d = dist[(i % 16) / 2] as int;
    if i % 2 == 0 {
        d % 256
    } else {
        d / 256
    }
}

/// Lays four copies of eight costs out as bytes.
pub fn spread_distances(dist: &[u16; 8]) -> (bytes: [u8; 64])
    ensures
        forall|i: int| 0 <= i < 64 ==> #[trigger] bytes@[i] == spread_byte(dist@, i),
{
    let mut bytes: [u8; 64] = [0u8; 64];
    let mut i: usize = 0;
    while i < 64
        invariant
            i <= 64,
            forall|j: int| 0 <= j < i ==> #[trigger] bytes@[j] == spread_byte(dist@, j),
        decreases 64 - i,
    {
        let d: u16 = dist[(i % 16) / 2];
        bytes[i] = if i % 2 == 0 {
            (d % 256) as u8
        } else {
            (d / 256) as u8
        };
        i = i + 1;
    }
    bytes
}

/// The two selectors point at the two bytes of cost `sel`.
pub open spec fn selects(low: u8, high: u8, sel: u8) -> bool {
    &&& low < 64
    &&& high < 64
    &&& (low as int % 16) / 2 == sel
    &&& low as int % 2 == 0
    &&& (high as int % 16) / 2 == sel
    &&& high as int % 2 == 1
}

proof fn lemma_mask_pair(masks: Seq<u8>, poly_table: Seq<u8>, lane: Lane, s: int)
    requires
        is_shuffle(masks, poly_table, lane.width()),
        0 <= s < poly_table.len(),
        poly_table[s] < 8,
    ensures
        selects(masks[2 * s], masks[2 * s + 1], poly_table[s]),
{
    let copy = (s % lane.width()) / 8;
    let sel = poly_table[s] as int;
    assert(0 <= copy <= 3);
    assert(masks[2 * s] == 2 * sel + copy * 16 && masks[2 * s + 1] == 2 * sel + 1 + copy * 16);
}

/// Puts the two bytes of a cost together.
#[inline(always)]
fn shuffle_lane(low: u8, high: u8, bytes: &[u8; 64], Ghost(dist): Ghost<Seq<u16>>, Ghost(sel): Ghost<
    u8,
>) -> (cost: u16)
    requires
        selects(low, high, sel),
        sel < 8,
        dist.len() == 8,
        forall|i: int| 0 <= i < 64 ==> #[trigger] bytes@[i] == spread_byte(dist, i),
    ensures
        cost == dist[sel as int],
{
    assert(bytes@[low as int] == spread_byte(dist, low as int));
    assert(bytes@[high as int] == spread_byte(dist, high as int));
    // both are below 64, and the remainders tell the compiler so
    bytes[(low % 64) as usize] as u16 + 256 * bytes[(high % 64) as usize] as u16
}

/// Shuffles the costs of the registers from `at` on into a vector.
#[inline(always)]
pub fn shuffle_dist(
    lane: Lane,
    masks: &[u8],
    at: usize,
    bytes: &[u8; 64],
    Ghost(dist): Ghost<Seq<u16>>,
    Ghost(poly_table): Ghost<Seq<u8>>,
) -> (v: Vector)
    requires
        is_shuffle(masks@, poly_table, lane.width()),
        forall|s: int| 0 <= s < poly_table.len() ==> #[trigger] poly_table[s] < 8,
        at + lane.width() <= poly_table.len() <= 65536,
        dist.len() == 8,
        forall|i: int| 0 <= i < 64 ==> #[trigger] bytes@[i] == spread_byte(dist, i),
    ensures
        forall|k: int|
            0 <= k < lane.width() ==> #[trigger] v@[k] == dist[poly_table[at + k] as int],
{
    let lanes: usize = lane.lanes();
    assert(2 * (at + lanes) <= masks.len());
    let part: &[u8] = slice_subrange(masks, 2 * at, 2 * (at + lanes));
    assert forall|j: int| 0 <= j < lanes implies #[trigger] selects(
        part@[2 * j],
        part@[2 * j + 1],
        poly_table[at + j],
    ) by {
        lemma_mask_pair(masks@, poly_table, lane, at + j);
    }
    let mut v: Vector = [0u16; 32];
    let mut k: usize = 0;
    while k < lanes
        invariant
            k <= lanes <= 32,
            lanes == lane.width(),
            part@.len() == 2 * lanes,
            forall|j: int|
                0 <= j < lanes ==> #[trigger] selects(
                    part@[2 * j],
                    part@[2 * j + 1],
                    poly_table[at + j],
                ),
            forall|s: int| 0 <= s < poly_table.len() ==> #[trigger] poly_table[s] < 8,
            at + lanes <= poly_table.len(),
            dist.len() == 8,
            forall|i: int| 0 <= i < 64 ==> #[trigger] bytes@[i] == spread_byte(dist, i),
            forall|j: int| 0 <= j < k ==> #[trigger] v@[j] == dist[poly_table[at + j] as int],
        decreases lanes - k,
    {
        let ghost sel = poly_table[at + k];
        assert(selects(part@[2 * (k as int)], part@[2 * (k as int) + 1], poly_table[at + k]));
        v[k] = shuffle_lane(part[2 * k], part[2 * k + 1], bytes, Ghost(dist), Ghost(sel));
        k = k + 1;
    }
    v
}

/// Shuffles the costs of the eight registers from `at` on into place.
#[inline(always)]
pub fn shuffle_eight(
    lane: Lane,
    masks: &[u8],
    at: usize,
    bytes: &[u8; 64],
    Ghost(dist): Ghost<Seq<u16>>,
    Ghost(poly_table): Ghost<Seq<u8>>,
) -> (v: Eight)
    requires
        is_shuffle(masks@, poly_table, lane.width()),
        forall|s: int| 0 <= s < poly_table.len() ==> #[trigger] poly_table[s] < 8,
        at + 8 <= poly_table.len() <= 65536,
        dist.len() == 8,
        forall|i: int| 0 <= i < 64 ==> #[trigger] bytes@[i] == spread_byte(dist, i),
    ensures
        forall|k: int| 0 <= k < 8 ==> #[trigger] v@[k] == dist[poly_table[at + k] as int],
{
    assert(2 * (at + 8) <= masks.len());
    let part: &[u8] = slice_subrange(masks, 2 * at, 2 * (at + 8));
    assert forall|j: int| 0 <= j < 8 implies #[trigger] selects(
        part@[2 * j],
        part@[2 * j + 1],
        poly_table[at + j],
    ) by {
        lemma_mask_pair(masks@, poly_table, lane, at + j);
    }
    let mut v: Eight = [0u16; 8];
    let mut k: usize = 0;
    while k < 8
        invariant
            k <= 8,
            part@.len() == 16,
            forall|j: int|
                0 <= j < 8 ==> #[trigger] selects(
                    part@[2 * j],
                    part@[2 * j + 1],
                    poly_table[at + j],
                ),
            forall|s: int| 0 <= s < poly_table.len() ==> #[trigger] poly_table[s] < 8,
            at + 8 <= poly_table.len(),
            dist.len() == 8,
            forall|i: int| 0 <= i < 64 ==> #[trigger] bytes@[i] == spread_byte(dist, i),
            forall|j: int| 0 <= j < k ==> #[trigger] v@[j] == dist[poly_table[at + j] as int],
        decreases 8 - k,
    {
        let ghost sel = poly_table[at + k];
        assert(selects(part@[2 * (k as int)], part@[2 * (k as int) + 1], poly_table[at + k]));
        v[k] = shuffle_lane(part[2 * k], part[2 * k + 1], bytes, Ghost(dist), Ghost(sel));
        k = k + 1;
    }
    v
}

/// The costs in a table that any byte can index.
pub fn widen(costs: &[u16]) -> (table: [u16; 256])
    requires
        costs@.len() <= 256,
    ensures
        forall|i: int| 0 <= i < costs@.len() ==> #[trigger] table@[i] == costs@[i],
{
    let mut table: [u16; 256] = [0u16; 256];
    let mut k: usize = 0;
    while k < costs.len()
        invariant
            k <= costs@.len() <= 256,
            forall|i: int| 0 <= i < k ==> #[trigger] table@[i] == costs@[i],
        decreases costs@.len() - k,
    {
        table[k] = costs[k];
        k = k + 1;
    }
    table
}

/// The outputs of eight neighbouring registers, from the first one's: they differ
/// from it as those of registers 0 to 7 differ from 0.
pub open spec fn in_eights(poly_table: Seq<u8>) -> bool {
    &&& poly_table.len() % 8 == 0
    &&& poly_table.len() >= 8
    &&& forall|i: int, j: int|
        0 <= 8 * i < poly_table.len() && 0 <= j < 8 ==> #[trigger] eight_output(poly_table, i, j)
}

pub open spec fn eight_output(poly_table: Seq<u8>, i: int, j: int) -> bool {
    poly_table[8 * i + j] == poly_table[8 * i] ^ poly_table[j]
}

/// For each of the first `outputs` outputs, the costs of eight neighbouring
/// registers of which the first has it.
pub open spec fn is_spread(
    eights: Seq<u16>,
    outputs: int,
    costs: Seq<u16>,
    poly_table: Seq<u8>,
) -> bool {
    forall|o: int, j: int|
        #![trigger eights[8 * o + j]]
        0 <= o < outputs && 0 <= j < 8 ==> eights[8 * o + j] == costs[(o as u8
            ^ poly_table[j]) as int]
}

/// Lays out, for every output that the first of eight neighbouring registers can
/// have, the costs of all eight.
#[inline(always)]
pub fn spread_eights(costs: &[u16; 256], outputs: usize, poly_table: &[u8]) -> (eights: [u16; 2048])
    requires
        poly_table@.len() >= 8,
        outputs <= 256,
    ensures
        is_spread(eights@, outputs as int, costs@, poly_table@),
{
    let mut eights: [u16; 2048] = [0u16; 2048];
    let mut k: usize = 0;
    while k < 8 * outputs
        invariant
            k <= 8 * outputs <= 2048,
            poly_table@.len() >= 8,
            forall|i: int|
                0 <= i < k ==> #[trigger] eights@[i] == costs@[((i / 8) as u8 ^ poly_table@[i
                    % 8]) as int],
        decreases 8 * outputs - k,
    {
        let first: u8 = (k / 8) as u8;
        eights[k] = costs[(first ^ poly_table[k % 8]) as usize];
        k = k + 1;
    }
    assert forall|o: int, j: int|
        #![trigger eights@[8 * o + j]]
        0 <= o < outputs && 0 <= j < 8 implies eights@[8 * o + j] == costs@[(o as u8
        ^ poly_table@[j]) as int] by {
        let i = 8 * o + j;
        assert(i / 8 == o && i % 8 == j);
    }
    eights
}

/// The costs that are laid out for the first output are those of all eight.
proof fn lemma_spread_eight(
    eights: Seq<u16>,
    outputs: int,
    costs: Seq<u16>,
    poly_table: Seq<u8>,
    at: int,
    v: Seq<u16>,
)
    requires
        0 <= at,
        at % 8 == 0,
        at + 8 <= poly_table.len(),
        in_eights(poly_table),
        poly_table[at] < outputs,
        is_spread(eights, outputs, costs, poly_table),
        forall|k: int| 0 <= k < 8 ==> #[trigger] v[k] == eights[8 * poly_table[at] + k],
    ensures
        forall|k: int| 0 <= k < 8 ==> #[trigger] v[k] == costs[poly_table[at + k] as int],
{
    let i = at / 8;
    let o = poly_table[at] as int;
    assert forall|k: int| 0 <= k < 8 implies #[trigger] v[k] == costs[poly_table[at
        + k] as int] by {
        assert(eight_output(poly_table, i, k));
        assert(eights[8 * o + k] == costs[(o as u8 ^ poly_table[k]) as int]);
    }
}

/// Looks the costs of the eight registers from `at` on up by the output of the
/// first.
#[inline(always)]
pub fn permute_eight(
    eights: &[u16; 2048],
    poly_table: &[u8],
    at: usize,
    Ghost(outputs): Ghost<int>,
    Ghost(costs): Ghost<Seq<u16>>,
) -> (v: Eight)
    requires
        at % 8 == 0,
        at + 8 <= poly_table@.len(),
        in_eights(poly_table@),
        poly_table@[at as int] < outputs,
        is_spread(eights@, outputs, costs, poly_table@),
    ensures
        forall|k: int| 0 <= k < 8 ==> #[trigger] v@[k] == costs[poly_table@[at + k] as int],
{
    let v: Eight = load_eight(eights, 8 * poly_table[at] as usize);
    proof {
        lemma_spread_eight(eights@, outputs, costs, poly_table@, at as int, v@);
    }
    v
}

/// The outputs of a group as one number, first output least significant.
pub open spec fn packed(outputs: Seq<u8>, base: int) -> int
    decreases outputs.len(),
{
    if outputs.len() == 0 {
        0
    } else {
        outputs[0] + base * packed(outputs.drop_first(), base)
    }
}

/// `n` outputs of `rate` bits take `rate * n` bits.
proof fn lemma_packed_bound(outputs: Seq<u8>, rate: nat)
    requires
        forall|i: int| 0 <= i < outputs.len() ==> #[trigger] outputs[i] < pow2(rate),
    ensures
        0 <= packed(outputs, pow2(rate) as int) < pow2(rate * outputs.len()),
    decreases outputs.len(),
{
    let b = pow2(rate) as int;
    lemma2_to64();
    if outputs.len() > 0 {
        let rest = outputs.drop_first();
        assert forall|i: int| 0 <= i < rest.len() implies #[trigger] rest[i] < pow2(rate) by {
            assert(rest[i] == outputs[i + 1]);
        }
        lemma_packed_bound(rest, rate);
        let n = rest.len();
        assert(rate * (n + 1) == rate + rate * n) by (nonlinear_arith);
        lemma_pow2_adds(rate, rate * n);
        let (p, q, d) = (packed(rest, b), pow2(rate * n) as int, outputs[0] as int);
        assert(0 <= d + b * p < b * q) by (nonlinear_arith)
            requires
                0 <= d < b,
                0 <= p < q,
        ;
    } else {
        assert(rate * 0 == 0);
    }
}

/// Equal numbers stand for equal outputs.
proof fn lemma_packed_injective(x: Seq<u8>, y: Seq<u8>, base: int)
    requires
        x.len() == y.len(),
        forall|i: int| 0 <= i < x.len() ==> #[trigger] x[i] < base,
        forall|i: int| 0 <= i < y.len() ==> #[trigger] y[i] < base,
        packed(x, base) == packed(y, base),
    ensures
        x == y,
    decreases x.len(),
{
    if x.len() > 0 {
        let (u, v) = (x.drop_first(), y.drop_first());
        assert forall|i: int| 0 <= i < u.len() implies #[trigger] u[i] < base by {
            assert(u[i] == x[i + 1]);
        }
        assert forall|i: int| 0 <= i < v.len() implies #[trigger] v[i] < base by {
            assert(v[i] == y[i + 1]);
        }
        let (p, q, a, b) = (packed(u, base), packed(v, base), x[0] as int, y[0] as int);
        assert(a == b && p == q) by (nonlinear_arith)
            requires
                a + base * p == b + base * q,
                0 <= a < base,
                0 <= b < base,
        ;
        lemma_packed_injective(u, v, base);
        assert forall|i: int| 0 <= i < x.len() implies x[i] == y[i] by {
            if i > 0 {
                assert(u[i - 1] == v[i - 1]);
            }
        }
        assert(x =~= y);
    } else {
        assert(x =~= y);
    }
}

/// Branch costs for groups of eight registers and groups of sixteen. Many groups
/// share the same outputs, so each distinct group is kept once; a group's key is
/// where its outputs start.
#[derive(Clone, Debug)]
pub struct OctLookup {
    pub keys: Vec<u16>,
    pub outputs: Vec<u8>,
    pub distances: Vec<u16>,
    pub keys16: Vec<u16>,
    pub outputs16: Vec<u8>,
    pub distances16: Vec<u16>,
}

/// How many registers a vector of this width looks up under one key.
pub open spec fn group_of(lane: Lane) -> int {
    match lane {
        Lane::Lane128 => 8,
        _ => 16,
    }
}

/// Register `i` of group `g` has its output `i` places after the group's key.
pub open spec fn output_kept(
    keys: Seq<u16>,
    outputs: Seq<u8>,
    poly_table: Seq<u8>,
    width: int,
    g: int,
    i: int,
) -> bool {
    &&& keys[g] + i < outputs.len()
    &&& outputs[keys[g] + i] == poly_table[g * width + i]
}

/// Every group's outputs are found under its key.
pub open spec fn is_lookup(
    keys: Seq<u16>,
    outputs: Seq<u8>,
    poly_table: Seq<u8>,
    width: int,
) -> bool {
    &&& keys.len() == poly_table.len() / (width as nat)
    &&& forall|g: int, i: int|
        0 <= g < keys.len() && 0 <= i < width ==> #[trigger] output_kept(
            keys,
            outputs,
            poly_table,
            width,
            g,
            i,
        )
}

/// The outputs of the group that starts at `base`, as one number.
fn pack_group(poly_table: &[u8], base: usize, width: usize, count: u128, Ghost(rate): Ghost<
    nat,
>) -> (concat: u128)
    requires
        1 <= rate <= 8,
        width <= 16,
        base + width <= poly_table@.len(),
        count == pow2(rate),
        forall|s: int| 0 <= s < poly_table@.len() ==> #[trigger] poly_table@[s] < pow2(rate),
    ensures
        concat == packed(poly_table@.subrange(base as int, base + width), pow2(rate) as int),
{
    let ghost group = poly_table@.subrange(base as int, base + width);
    let ghost b = pow2(rate) as int;
    let mut concat: u128 = 0;
    let mut i: usize = width;
    assert(group.skip(width as int) =~= Seq::<u8>::empty());
    while i > 0
        invariant
            i <= width <= 16,
            1 <= rate <= 8,
            base + width <= poly_table.len(),
            group == poly_table@.subrange(base as int, base + width),
            b == pow2(rate),
            count == b,
            forall|s: int| 0 <= s < poly_table@.len() ==> #[trigger] poly_table@[s] < pow2(rate),
            concat == packed(group.skip(i as int), b),
        decreases i,
    {
        i = i - 1;
        let ghost part = group.skip(i as int);
        proof {
            assert(part.drop_first() =~= group.skip(i + 1));
            assert(part[0] == poly_table@[base + i]);
            assert forall|k: int| 0 <= k < part.len() implies #[trigger] part[k] < pow2(rate) by {
                assert(part[k] == poly_table@[base + i + k]);
            }
            lemma_packed_bound(part, rate);
            let bits = rate * part.len();
            assert(bits <= 128) by (nonlinear_arith)
                requires
                    bits == rate * part.len(),
                    rate <= 8,
                    part.len() <= 16,
            ;
            lemma2_to64();
            lemma_pow2_adds(64, 64);
            if bits < 128 {
                lemma_pow2_strictly_increases(bits, 128);
            }
            assert(b * concat == concat * count) by (nonlinear_arith)
                requires
                    b == count,
            ;
            assert(concat * count >= 0) by (nonlinear_arith);
        }
        concat = concat * count + poly_table[base + i] as u128;
    }
    assert(group.skip(0) =~= group);
    concat
}

impl OctLookup {
    /// The keys belong to this table.
    pub open spec fn wf(self, poly_table: Seq<u8>) -> bool {
        &&& is_lookup(self.keys@, self.outputs@, poly_table, 8)
        &&& is_lookup(self.keys16@, self.outputs16@, poly_table, 16)
        &&& self.distances@.len() == self.outputs@.len()
        &&& self.distances16@.len() == self.outputs16@.len()
        &&& forall|k: int|
            0 <= k < self.outputs@.len() ==> poly_table.contains(#[trigger] self.outputs@[k])
        &&& forall|k: int|
            0 <= k < self.outputs16@.len() ==> poly_table.contains(#[trigger] self.outputs16@[k])
    }

    pub fn new(rate: u32, order: u32, poly_table: &[u8]) -> (lookup: OctLookup)
        requires
            1 <= rate <= 8,
            4 <= order <= 16,
            poly_table@.len() == pow2(order as nat),
            forall|s: int|
                0 <= s < poly_table@.len() ==> #[trigger] poly_table@[s] < pow2(rate as nat),
        ensures
            lookup.wf(poly_table@),
    {
        let (keys, outputs) = OctLookup::fill_keys(rate, order, 8, poly_table);
        let (keys16, outputs16) = OctLookup::fill_keys(rate, order, 16, poly_table);
        let (n, n16): (usize, usize) = (outputs.len(), outputs16.len());
        OctLookup {
            keys,
            outputs,
            distances: vec![0u16; n],
            keys16,
            outputs16,
            distances16: vec![0u16; n16],
        }
    }

    /// Finds the distinct groups, and each group's key.
    fn fill_keys(rate: u32, order: u32, group_width: usize, poly_table: &[u8]) -> (r: (
        Vec<u16>,
        Vec<u8>,
    ))
        requires
            1 <= rate <= 8,
            4 <= order <= 16,
            group_width == 8 || group_width == 16,
            poly_table@.len() == pow2(order as nat),
            forall|s: int|
                0 <= s < poly_table@.len() ==> #[trigger] poly_table@[s] < pow2(rate as nat),
        ensures
            is_lookup(r.0@, r.1@, poly_table@, group_width as int),
            forall|k: int| 0 <= k < r.1@.len() ==> poly_table@.contains(#[trigger] r.1@[k]),
    {
        broadcast use vstd::std_specs::hash::group_hash_axioms;

        let ghost len = poly_table@.len() as int;
        let ghost w = group_width as int;
        let ghost b = pow2(rate as nat) as int;
        proof {
            lemma2_to64();
            if order < 16 {
                lemma_pow2_strictly_increases(order as nat, 16);
            }
            if rate < 8 {
                lemma_pow2_strictly_increases(rate as nat, 8);
            }
            lemma_groups(order as nat, 3);
            lemma_groups(order as nat, 4);
            vstd::arithmetic::div_mod::lemma_fundamental_div_mod(len, w);
            assert(w * (len / w) == (len / w) * w) by (nonlinear_arith);
            assert(0 * w == 0);
        }
        let num_groups: usize = poly_table.len() / group_width;
        let count: u128 = super::super::util::num_states_for_order(rate) as u128;
        let mut keys: Vec<u16> = Vec::with_capacity(num_groups);
        let mut outputs: Vec<u8> = Vec::new();
        let mut dedup: HashMap<u128, u16> = HashMap::new();
        let mut g: usize = 0;
        while g < num_groups
            invariant
                g <= num_groups,
                1 <= rate <= 8,
                b == pow2(rate as nat),
                count == b,
                w == group_width,
                w == 8 || w == 16,
                num_groups * w == len,
                len == poly_table@.len() <= 65536,
                forall|s: int|
                    0 <= s < poly_table@.len() ==> #[trigger] poly_table@[s] < pow2(rate as nat),
                keys@.len() == g,
                outputs@.len() <= g * w,
                forall|k: int|
                    0 <= k < outputs@.len() ==> poly_table@.contains(#[trigger] outputs@[k]),
                forall|c: u128|
                    #[trigger] dedup@.contains_key(c) ==> {
                        &&& dedup@[c] + w <= outputs@.len()
                        &&& c == packed(outputs@.subrange(dedup@[c] as int, dedup@[c] + w), b)
                    },
                forall|h: int, i: int|
                    0 <= h < g && 0 <= i < w ==> #[trigger] output_kept(
                        keys@,
                        outputs@,
                        poly_table@,
                        w,
                        h,
                        i,
                    ),
            decreases num_groups - g,
        {
            broadcast use vstd::std_specs::hash::group_hash_axioms;

            let ghost first = g * w;
            assert(0 <= first && first + w == (g + 1) * w && (g + 1) * w <= num_groups * w)
                by (nonlinear_arith)
                requires
                    first == g * w,
                    g + 1 <= num_groups,
                    0 <= w,
            ;
            let base: usize = g * group_width;
            let ghost group = poly_table@.subrange(base as int, base + w);
            let concat: u128 = pack_group(
                poly_table,
                base,
                group_width,
                count,
                Ghost(rate as nat),
            );
            let ghost old_keys = keys@;
            let ghost old_outputs = outputs@;
            let found: Option<u16> = match dedup.get(&concat) {
                Some(existing) => Some(*existing),
                None => None,
            };
            match found {
                Some(existing) => {
                    keys.push(existing);
                    proof {
                        let kept = outputs@.subrange(existing as int, existing + w);
                        assert forall|i: int| 0 <= i < kept.len() implies #[trigger] kept[i] < b by {
                            assert(poly_table@.contains(outputs@[existing + i]));
                        }
                        assert forall|i: int| 0 <= i < group.len() implies #[trigger] group[i] < b by {
                            assert(group[i] == poly_table@[base + i]);
                        }
                        lemma_packed_injective(kept, group, b);
                        assert forall|h: int, i: int|
                            0 <= h < g + 1 && 0 <= i < w implies #[trigger] output_kept(
                            keys@,
                            outputs@,
                            poly_table@,
                            w,
                            h,
                            i,
                        ) by {
                            if h < g {
                                assert(output_kept(old_keys, outputs@, poly_table@, w, h, i));
                            } else {
                                assert(kept[i] == group[i]);
                            }
                        }
                    }
                },
                None => {
                    let offset: u16 = outputs.len() as u16;
                    let mut i: usize = 0;
                    while i < group_width
                        invariant
                            i <= group_width,
                            w == group_width,
                            base + w <= poly_table.len(),
                            outputs@ == old_outputs + poly_table@.subrange(base as int, base + i),
                        decreases group_width - i,
                    {
                        outputs.push(poly_table[base + i]);
                        i = i + 1;
                        assert(outputs@ =~= old_outputs + poly_table@.subrange(
                            base as int,
                            base + i,
                        ));
                    }
                    keys.push(offset);
                    let ghost old_dedup = dedup@;
                    dedup.insert(concat, offset);
                    proof {
                        assert forall|k: int| 0 <= k < outputs@.len() implies poly_table@.contains(
                            #[trigger] outputs@[k],
                        ) by {
                            if k < old_outputs.len() {
                                assert(outputs@[k] == old_outputs[k]);
                            } else {
                                assert(outputs@[k] == poly_table@[base + (k - old_outputs.len())]);
                            }
                        }
                        assert forall|c: u128| #[trigger] dedup@.contains_key(c) implies {
                            &&& dedup@[c] + w <= outputs@.len()
                            &&& c == packed(outputs@.subrange(dedup@[c] as int, dedup@[c] + w), b)
                        } by {
                            if c == concat {
                                assert(outputs@.subrange(offset as int, offset + w) =~= group);
                            } else {
                                assert(old_dedup.contains_key(c));
                                let o = old_dedup[c] as int;
                                assert(outputs@.subrange(o, o + w) =~= old_outputs.subrange(
                                    o,
                                    o + w,
                                ));
                            }
                        }
                        assert forall|h: int, i: int|
                            0 <= h < g + 1 && 0 <= i < w implies #[trigger] output_kept(
                            keys@,
                            outputs@,
                            poly_table@,
                            w,
                            h,
                            i,
                        ) by {
                            if h < g {
                                assert(output_kept(old_keys, old_outputs, poly_table@, w, h, i));
                            } else {
                                assert(outputs@[offset + i] == group[i]);
                            }
                        }
                    }
                },
            }
            g = g + 1;
        }
        (keys, outputs)
    }

    /// Brings the costs of the kept groups of eight up to date.
    pub fn fill_distances(&mut self, distances: &[u16])
        requires
            old(self).outputs@.len() == old(self).distances@.len(),
            forall|k: int|
                0 <= k < old(self).outputs@.len() ==> #[trigger] old(self).outputs@[k]
                    < distances@.len(),
        ensures
            *final(self) == (OctLookup { distances: final(self).distances, ..*old(self) }),
            final(self).distances@.len() == old(self).distances@.len(),
            forall|k: int|
                0 <= k < final(self).distances@.len() ==> #[trigger] final(self).distances@[k]
                    == distances@[old(self).outputs@[k] as int],
    {
        let ghost before = *self;
        let mut k: usize = 0;
        while k < self.distances.len()
            invariant
                k <= self.distances@.len(),
                *self == (OctLookup { distances: self.distances, ..before }),
                self.distances@.len() == before.distances@.len(),
                before.outputs@.len() == before.distances@.len(),
                forall|j: int|
                    0 <= j < before.outputs@.len() ==> #[trigger] before.outputs@[j]
                        < distances@.len(),
                forall|j: int|
                    0 <= j < k ==> #[trigger] self.distances@[j]
                        == distances@[before.outputs@[j] as int],
            decreases self.distances@.len() - k,
        {
            self.distances[k] = distances[self.outputs[k] as usize];
            k = k + 1;
        }
    }

    /// Brings the costs of the kept groups of sixteen up to date.
    pub fn fill_distances16(&mut self, distances: &[u16])
        requires
            old(self).outputs16@.len() == old(self).distances16@.len(),
            forall|k: int|
                0 <= k < old(self).outputs16@.len() ==> #[trigger] old(self).outputs16@[k]
                    < distances@.len(),
        ensures
            *final(self) == (OctLookup { distances16: final(self).distances16, ..*old(self) }),
            final(self).distances16@.len() == old(self).distances16@.len(),
            forall|k: int|
                0 <= k < final(self).distances16@.len() ==> #[trigger] final(self).distances16@[k]
                    == distances@[old(self).outputs16@[k] as int],
    {
        let ghost before = *self;
        let mut k: usize = 0;
        while k < self.distances16.len()
            invariant
                k <= self.distances16@.len(),
                *self == (OctLookup { distances16: self.distances16, ..before }),
                self.distances16@.len() == before.distances16@.len(),
                before.outputs16@.len() == before.distances16@.len(),
                forall|j: int|
                    0 <= j < before.outputs16@.len() ==> #[trigger] before.outputs16@[j]
                        < distances@.len(),
                forall|j: int|
                    0 <= j < k ==> #[trigger] self.distances16@[j]
                        == distances@[before.outputs16@[j] as int],
            decreases self.distances16@.len() - k,
        {
            self.distances16[k] = distances[self.outputs16[k] as usize];
            k = k + 1;
        }
    }

    /// The kept costs that a vector width reads are those of `distances`.
    pub open spec fn filled(self, lane: Lane, distances: Seq<u16>) -> bool {
        match lane {
            Lane::Lane128 => forall|k: int|
                0 <= k < self.distances@.len() ==> #[trigger] self.distances@[k]
                    == distances[self.outputs@[k] as int],
            _ => forall|k: int|
                0 <= k < self.distances16@.len() ==> #[trigger] self.distances16@[k]
                    == distances[self.outputs16@[k] as int],
        }
    }

    /// Brings the costs that a vector width reads up to date. The widest vector
    /// reads two groups of sixteen: wider groups would be fewer lookups, but take
    /// more cache.
    pub fn fill_for(&mut self, lane: Lane, distances: &[u16], Ghost(poly_table): Ghost<Seq<u8>>)
        requires
            old(self).wf(poly_table),
            forall|s: int|
                0 <= s < poly_table.len() ==> #[trigger] poly_table[s] < distances@.len(),
        ensures
            final(self).wf(poly_table),
            final(self).filled(lane, distances@),
    {
        proof {
            assert forall|k: int| 0 <= k < self.outputs@.len() implies #[trigger] self.outputs@[k]
                < distances@.len() by {
                assert(poly_table.contains(self.outputs@[k]));
            }
            assert forall|k: int|
                0 <= k < self.outputs16@.len() implies #[trigger] self.outputs16@[k]
                < distances@.len() by {
                assert(poly_table.contains(self.outputs16@[k]));
            }
        }
        match lane {
            Lane::Lane128 => self.fill_distances(distances),
            _ => self.fill_distances16(distances),
        }
    }

    /// The costs of eight registers of the group that starts at `at`, `from` places
    /// into it.
    #[inline(always)]
    pub fn load_dist(
        &self,
        lane: Lane,
        at: usize,
        from: usize,
        Ghost(distances): Ghost<Seq<u16>>,
        Ghost(poly_table): Ghost<Seq<u8>>,
    ) -> (v: Eight)
        requires
            self.wf(poly_table),
            self.filled(lane, distances),
            at as int % group_of(lane) == 0,
            at + group_of(lane) <= poly_table.len(),
            from == 0 || from == 8 && lane != Lane::Lane128,
        ensures
            forall|k: int|
                0 <= k < 8 ==> #[trigger] v@[k] == distances[poly_table[at + from + k] as int],
    {
        match lane {
            Lane::Lane128 => {
                let ghost g = at as int / 8;
                proof {
                    assert(is_lookup(self.keys@, self.outputs@, poly_table, 8));
                    assert(self.keys@.len() == poly_table.len() / 8);
                    assert(0 <= g < self.keys@.len());
                    assert(output_kept(self.keys@, self.outputs@, poly_table, 8, g, 7));
                }
                let key: usize = self.keys[at / 8] as usize;
                let v: Eight = load_eight(&self.distances, key);
                proof {
                    assert forall|k: int| 0 <= k < 8 implies #[trigger] v@[k]
                        == distances[poly_table[at + from + k] as int] by {
                        assert(output_kept(self.keys@, self.outputs@, poly_table, 8, g, k));
                        assert(self.distances@[key + k] == distances[self.outputs@[key + k] as int]);
                    }
                }
                v
            },
            _ => {
                let ghost g = at as int / 16;
                proof {
                    assert(is_lookup(self.keys16@, self.outputs16@, poly_table, 16));
                    assert(self.keys16@.len() == poly_table.len() / 16);
                    assert(0 <= g < self.keys16@.len());
                    assert(output_kept(self.keys16@, self.outputs16@, poly_table, 16, g, 15));
                }
                let key: usize = self.keys16[at / 16] as usize + from;
                let v: Eight = load_eight(&self.distances16, key);
                proof {
                    assert forall|k: int| 0 <= k < 8 implies #[trigger] v@[k]
                        == distances[poly_table[at + from + k] as int] by {
                        let i = from + k;
                        assert(output_kept(self.keys16@, self.outputs16@, poly_table, 16, g, i));
                        assert(g * 16 + i == at + from + k);
                        assert(self.distances16@[key + k]
                            == distances[self.outputs16@[key + k] as int]);
                    }
                }
                v
            },
        }
    }
}

/// The cost of each register, by its output.
pub open spec fn costs_of(distances: Seq<u16>, poly_table: Seq<u8>) -> Seq<u16> {
    Seq::new(poly_table.len(), |r: int| distances[poly_table[r] as int])
}

/// Costs looked up by group.
pub struct OctCosts<'a> {
    pub lookup: &'a OctLookup,
    pub lane: Lane,
    pub distances: Ghost<Seq<u16>>,
    pub poly_table: Ghost<Seq<u8>>,
}

impl<'a> BranchCosts for OctCosts<'a> {
    open spec fn inv(&self) -> bool {
        &&& self.lookup.wf(self.poly_table@)
        &&& self.lookup.filled(self.lane, self.distances@)
        &&& self.poly_table@.len() as int % group_of(self.lane) == 0
    }

    open spec fn costs(&self) -> Seq<u16> {
        costs_of(self.distances@, self.poly_table@)
    }

    #[inline(always)]
    fn eight(&self, at: usize) -> (v: Eight) {
        let group: usize = match self.lane {
            Lane::Lane128 => 8,
            _ => 16,
        };
        let from: usize = at % group;
        let v: Eight = self.lookup.load_dist(
            self.lane,
            at - from,
            from,
            Ghost(self.distances@),
            Ghost(self.poly_table@),
        );
        assert forall|k: int| 0 <= k < 8 implies #[trigger] v@[k] == self.costs()[at + k] by {
            assert(at - from + from + k == at + k);
        }
        v
    }

    #[inline(always)]
    fn four(&self, at: usize) -> (v: (Eight, Eight, Eight, Eight)) {
        (self.eight(at), self.eight(at + 8), self.eight(at + 16), self.eight(at + 24))
    }
}

/// Costs looked up by the output of the first of eight.
pub struct PermuteCosts<'a> {
    pub eights: &'a [u16; 2048],
    pub poly_table: &'a [u8],
    pub outputs: Ghost<int>,
    pub distances: Ghost<Seq<u16>>,
}

impl<'a> BranchCosts for PermuteCosts<'a> {
    open spec fn inv(&self) -> bool {
        &&& in_eights(self.poly_table@)
        &&& is_spread(self.eights@, self.outputs@, self.distances@, self.poly_table@)
        &&& forall|r: int|
            0 <= r < self.poly_table@.len() ==> #[trigger] self.poly_table@[r] < self.outputs@
    }

    open spec fn costs(&self) -> Seq<u16> {
        costs_of(self.distances@, self.poly_table@)
    }

    #[inline(always)]
    fn eight(&self, at: usize) -> (v: Eight) {
        permute_eight(
            self.eights,
            self.poly_table,
            at,
            Ghost(self.outputs@),
            Ghost(self.distances@),
        )
    }

    #[inline(always)]
    fn four(&self, at: usize) -> (v: (Eight, Eight, Eight, Eight)) {
        assert(at + 32 <= self.poly_table.len());
        let table: &[u8] = slice_subrange(self.poly_table, at, at + 32);
        let v = (
            load_eight(self.eights, 8 * table[0] as usize),
            load_eight(self.eights, 8 * table[8] as usize),
            load_eight(self.eights, 8 * table[16] as usize),
            load_eight(self.eights, 8 * table[24] as usize),
        );
        proof {
            let (e, o, d, p) = (self.eights@, self.outputs@, self.distances@, self.poly_table@);
            lemma_spread_eight(e, o, d, p, at as int, v.0@);
            lemma_spread_eight(e, o, d, p, at + 8, v.1@);
            lemma_spread_eight(e, o, d, p, at + 16, v.2@);
            lemma_spread_eight(e, o, d, p, at + 24, v.3@);
        }
        v
    }
}

/// Costs shuffled into place.
pub struct ShuffleCosts<'a> {
    pub lane: Lane,
    pub masks: &'a [u8],
    pub bytes: &'a [u8; 64],
    pub distances: Ghost<Seq<u16>>,
    pub poly_table: Ghost<Seq<u8>>,
}

impl<'a> BranchCosts for ShuffleCosts<'a> {
    open spec fn inv(&self) -> bool {
        &&& is_shuffle(self.masks@, self.poly_table@, self.lane.width())
        &&& forall|s: int|
            0 <= s < self.poly_table@.len() ==> #[trigger] self.poly_table@[s] < 8
        &&& self.poly_table@.len() <= 65536
        &&& self.distances@.len() == 8
        &&& forall|i: int|
            0 <= i < 64 ==> #[trigger] self.bytes@[i] == spread_byte(self.distances@, i)
    }

    open spec fn costs(&self) -> Seq<u16> {
        costs_of(self.distances@, self.poly_table@)
    }

    #[inline(always)]
    fn eight(&self, at: usize) -> (v: Eight) {
        shuffle_eight(
            self.lane,
            self.masks,
            at,
            self.bytes,
            Ghost(self.distances@),
            Ghost(self.poly_table@),
        )
    }

    #[inline(always)]
    fn four(&self, at: usize) -> (v: (Eight, Eight, Eight, Eight)) {
        (self.eight(at), self.eight(at + 8), self.eight(at + 16), self.eight(at + 24))
    }
}

/// Costs of groups of eight, in a table of fixed size.
struct EightCosts<'a> {
    table: &'a [u16; 2056],
    keys: &'a [u16],
    distances: Ghost<Seq<u16>>,
    poly_table: Ghost<Seq<u8>>,
}

/// Register `k` of group `g` has its cost `k` places after the group's key.
spec fn cost_kept(
    table: Seq<u16>,
    keys: Seq<u16>,
    distances: Seq<u16>,
    poly_table: Seq<u8>,
    width: int,
    g: int,
    k: int,
) -> bool {
    table[keys[g] + k] == distances[poly_table[g * width + k] as int]
}

/// Every group's costs are found under its key, which is less than `limit`.
spec fn is_cost_table(
    table: Seq<u16>,
    keys: Seq<u16>,
    distances: Seq<u16>,
    poly_table: Seq<u8>,
    width: int,
    limit: int,
) -> bool {
    &&& keys.len() * width == poly_table.len()
    &&& forall|g: int| 0 <= g < keys.len() ==> #[trigger] keys[g] < limit
    &&& forall|g: int, k: int|
        0 <= g < keys.len() && 0 <= k < width ==> #[trigger] cost_kept(
            table,
            keys,
            distances,
            poly_table,
            width,
            g,
            k,
        )
}

/// A part of a group's costs.
proof fn lemma_cost_part(
    table: Seq<u16>,
    keys: Seq<u16>,
    distances: Seq<u16>,
    poly_table: Seq<u8>,
    width: int,
    limit: int,
    g: int,
    from: int,
    v: Seq<u16>,
)
    requires
        is_cost_table(table, keys, distances, poly_table, width, limit),
        0 <= g < keys.len(),
        0 <= from,
        from + 8 <= width,
        forall|k: int| 0 <= k < 8 ==> #[trigger] v[k] == table[keys[g] + from + k],
    ensures
        forall|k: int|
            0 <= k < 8 ==> #[trigger] v[k] == costs_of(distances, poly_table)[g * width + from + k],
{
    assert forall|k: int| 0 <= k < 8 implies #[trigger] v[k] == costs_of(distances, poly_table)[g
        * width + from + k] by {
        assert(cost_kept(table, keys, distances, poly_table, width, g, from + k));
        assert(0 <= g * width && g * width + width <= poly_table.len()) by (nonlinear_arith)
            requires
                0 <= g < keys.len(),
                width >= 8,
                keys.len() * width == poly_table.len(),
        ;
    }
}

impl<'a> BranchCosts for EightCosts<'a> {
    closed spec fn inv(&self) -> bool {
        is_cost_table(self.table@, self.keys@, self.distances@, self.poly_table@, 8, 2048)
    }

    closed spec fn costs(&self) -> Seq<u16> {
        costs_of(self.distances@, self.poly_table@)
    }

    #[inline(always)]
    fn eight(&self, at: usize) -> (v: Eight) {
        let ghost g = at as int / 8;
        assert(self.keys@[g] < 2048);
        let v: Eight = load_eight(self.table, self.keys[at / 8] as usize % 2048);
        proof {
            let (t, keys, d, p) = (self.table@, self.keys@, self.distances@, self.poly_table@);
            lemma_cost_part(t, keys, d, p, 8, 2048, g, 0, v@);
        }
        v
    }

    #[inline(always)]
    fn four(&self, at: usize) -> (v: (Eight, Eight, Eight, Eight)) {
        let ghost g = at as int / 8;
        let keys: &[u16] = slice_subrange(self.keys, at / 8, at / 8 + 4);
        assert(keys@[0] == self.keys@[g] && self.keys@[g] < 2048);
        assert(keys@[1] == self.keys@[g + 1] && self.keys@[g + 1] < 2048);
        assert(keys@[2] == self.keys@[g + 2] && self.keys@[g + 2] < 2048);
        assert(keys@[3] == self.keys@[g + 3] && self.keys@[g + 3] < 2048);
        let v = (
            load_eight(self.table, keys[0] as usize % 2048),
            load_eight(self.table, keys[1] as usize % 2048),
            load_eight(self.table, keys[2] as usize % 2048),
            load_eight(self.table, keys[3] as usize % 2048),
        );
        proof {
            let (t, keys, d, p) = (self.table@, self.keys@, self.distances@, self.poly_table@);
            lemma_cost_part(t, keys, d, p, 8, 2048, g, 0, v.0@);
            lemma_cost_part(t, keys, d, p, 8, 2048, g + 1, 0, v.1@);
            lemma_cost_part(t, keys, d, p, 8, 2048, g + 2, 0, v.2@);
            lemma_cost_part(t, keys, d, p, 8, 2048, g + 3, 0, v.3@);
        }
        v
    }
}

/// Costs of groups of sixteen, in a table of fixed size.
struct SixteenCosts<'a> {
    table: &'a [u16; 4112],
    keys: &'a [u16],
    distances: Ghost<Seq<u16>>,
    poly_table: Ghost<Seq<u8>>,
}

impl<'a> BranchCosts for SixteenCosts<'a> {
    closed spec fn inv(&self) -> bool {
        is_cost_table(self.table@, self.keys@, self.distances@, self.poly_table@, 16, 4096)
    }

    closed spec fn costs(&self) -> Seq<u16> {
        costs_of(self.distances@, self.poly_table@)
    }

    #[inline(always)]
    fn eight(&self, at: usize) -> (v: Eight) {
        let ghost g = at as int / 16;
        assert(self.keys@[g] < 4096);
        let from: usize = at % 16;
        let v: Eight = load_eight(self.table, self.keys[at / 16] as usize % 4096 + from);
        proof {
            let (t, keys, d, p) = (self.table@, self.keys@, self.distances@, self.poly_table@);
            lemma_cost_part(t, keys, d, p, 16, 4096, g, from as int, v@);
        }
        v
    }

    #[inline(always)]
    fn four(&self, at: usize) -> (v: (Eight, Eight, Eight, Eight)) {
        let ghost g = at as int / 16;
        let keys: &[u16] = slice_subrange(self.keys, at / 16, at / 16 + 2);
        assert(keys@[0] == self.keys@[g] && self.keys@[g] < 4096);
        assert(keys@[1] == self.keys@[g + 1] && self.keys@[g + 1] < 4096);
        let first: usize = keys[0] as usize % 4096;
        let second: usize = keys[1] as usize % 4096;
        let v = (
            load_eight(self.table, first),
            load_eight(self.table, first + 8),
            load_eight(self.table, second),
            load_eight(self.table, second + 8),
        );
        proof {
            let (t, keys, d, p) = (self.table@, self.keys@, self.distances@, self.poly_table@);
            lemma_cost_part(t, keys, d, p, 16, 4096, g, 0, v.0@);
            lemma_cost_part(t, keys, d, p, 16, 4096, g, 8, v.1@);
            lemma_cost_part(t, keys, d, p, 16, 4096, g + 1, 0, v.2@);
            lemma_cost_part(t, keys, d, p, 16, 4096, g + 1, 8, v.3@);
        }
        v
    }
}

/// Copies the costs to the front of a table.
fn copy_costs(table: &mut [u16], costs: &[u16])
    requires
        costs@.len() <= old(table)@.len(),
    ensures
        final(table)@.len() == old(table)@.len(),
        forall|k: int| 0 <= k < costs@.len() ==> #[trigger] final(table)@[k] == costs@[k],
{
    let (part, _) = table.split_at_mut(costs.len());
    let mut k: usize = 0;
    while k < costs.len()
        invariant
            k <= costs@.len(),
            part@.len() == costs@.len(),
            forall|j: int| 0 <= j < k ==> #[trigger] part@[j] == costs@[j],
        decreases costs@.len() - k,
    {
        part[k] = costs[k];
        k = k + 1;
    }
}

/// The kept costs make a table.
proof fn lemma_cost_table(
    keys: Seq<u16>,
    outputs: Seq<u8>,
    kept: Seq<u16>,
    table: Seq<u16>,
    distances: Seq<u16>,
    poly_table: Seq<u8>,
    width: int,
    limit: int,
)
    requires
        width >= 8,
        is_lookup(keys, outputs, poly_table, width),
        poly_table.len() as int % width == 0,
        kept.len() == outputs.len() <= limit,
        forall|k: int| 0 <= k < kept.len() ==> #[trigger] kept[k] == distances[outputs[k] as int],
        forall|k: int| 0 <= k < kept.len() ==> #[trigger] table[k] == kept[k],
    ensures
        is_cost_table(table, keys, distances, poly_table, width, limit),
{
    vstd::arithmetic::div_mod::lemma_fundamental_div_mod(poly_table.len() as int, width);
    assert(keys.len() * width == width * keys.len()) by (nonlinear_arith);
    assert forall|g: int| 0 <= g < keys.len() implies #[trigger] keys[g] < limit by {
        assert(output_kept(keys, outputs, poly_table, width, g, 0));
    }
    assert forall|g: int, k: int| 0 <= g < keys.len() && 0 <= k < width implies #[trigger] cost_kept(
        table,
        keys,
        distances,
        poly_table,
        width,
        g,
        k,
    ) by {
        assert(output_kept(keys, outputs, poly_table, width, g, k));
        assert(table[keys[g] + k] == kept[keys[g] + k]);
    }
}

/// Settles every state with the costs looked up by group.
pub fn settle_oct(source: &OctCosts, previous: &[u16], errors: &mut [u16], flags: &mut [u8])
    requires
        source.inv(),
        source.costs().len() == 2 * previous@.len(),
        previous@.len() <= 32768,
        previous@.len() % 8 == 0,
        previous@.len() < 32 || previous@.len() % 32 == 0,
        old(errors)@.len() == previous@.len(),
        old(flags)@.len() == previous@.len(),
        sums_fit(source.costs(), previous@),
    ensures
        final(errors)@.len() == previous@.len(),
        final(flags)@.len() == previous@.len(),
        forall|s: int|
            0 <= s < previous@.len() ==> #[trigger] is_settled(
                source.costs(),
                previous@,
                final(errors)@,
                final(flags)@,
                s,
            ),
{
    let lookup: &OctLookup = source.lookup;
    let (distances, poly_table) = (source.distances, source.poly_table);
    match source.lane {
        Lane::Lane128 => {
            // as many groups as a byte can tell apart
            if lookup.distances.len() <= 2048 {
                let mut table: [u16; 2056] = [0u16; 2056];
                copy_costs(&mut table, &lookup.distances);
                proof {
                    lemma_cost_table(
                        lookup.keys@,
                        lookup.outputs@,
                        lookup.distances@,
                        table@,
                        distances@,
                        poly_table@,
                        8,
                        2048,
                    );
                }
                let eights = EightCosts { table: &table, keys: &lookup.keys, distances, poly_table };
                settle_all(&eights, previous, errors, flags);
                return ;
            }
        },
        _ => {
            if lookup.distances16.len() <= 4096 {
                let mut table: [u16; 4112] = [0u16; 4112];
                copy_costs(&mut table, &lookup.distances16);
                proof {
                    lemma_cost_table(
                        lookup.keys16@,
                        lookup.outputs16@,
                        lookup.distances16@,
                        table@,
                        distances@,
                        poly_table@,
                        16,
                        4096,
                    );
                }
                let sixteens = SixteenCosts {
                    table: &table,
                    keys: &lookup.keys16,
                    distances,
                    poly_table,
                };
                settle_all(&sixteens, previous, errors, flags);
                return ;
            }
        },
    }
    settle_all(source, previous, errors, flags);
}

/// Settles every state with the costs looked up by the output of the first of eight.
pub fn settle_permute(source: &PermuteCosts, previous: &[u16], errors: &mut [u16], flags: &mut [u8])
    requires
        source.inv(),
        source.costs().len() == 2 * previous@.len(),
        previous@.len() <= 32768,
        previous@.len() % 8 == 0,
        previous@.len() < 32 || previous@.len() % 32 == 0,
        old(errors)@.len() == previous@.len(),
        old(flags)@.len() == previous@.len(),
        sums_fit(source.costs(), previous@),
    ensures
        final(errors)@.len() == previous@.len(),
        final(flags)@.len() == previous@.len(),
        forall|s: int|
            0 <= s < previous@.len() ==> #[trigger] is_settled(
                source.costs(),
                previous@,
                final(errors)@,
                final(flags)@,
                s,
            ),
{
    settle_all(source, previous, errors, flags);
}

/// Settles every state with the costs shuffled into place.
pub fn settle_shuffle(source: &ShuffleCosts, previous: &[u16], errors: &mut [u16], flags: &mut [u8])
    requires
        source.inv(),
        source.costs().len() == 2 * previous@.len(),
        previous@.len() <= 32768,
        previous@.len() % 8 == 0,
        previous@.len() < 32 || previous@.len() % 32 == 0,
        old(errors)@.len() == previous@.len(),
        old(flags)@.len() == previous@.len(),
        sums_fit(source.costs(), previous@),
    ensures
        final(errors)@.len() == previous@.len(),
        final(flags)@.len() == previous@.len(),
        forall|s: int|
            0 <= s < previous@.len() ==> #[trigger] is_settled(
                source.costs(),
                previous@,
                final(errors)@,
                final(flags)@,
                s,
            ),
{
    settle_all(source, previous, errors, flags);
}

} // verus!
