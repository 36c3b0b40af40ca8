//! The decoder that settles many states at a time.

use super::super::bit::{bit_at, BitReader, BitWriter};
use super::super::channel::{
    hard_cost, lemma_costs_bounded, soft_cost, ConvolutionalError,
};
use super::super::decoder::{
    decode_result, lemma_high_low, lemma_select, run_for,
};
use super::super::error;
use super::super::error::{bytes_for, div_ceil_8, valid_encoded_len, DecodeError};
use super::super::history::{
    lemma_holds_fits, lemma_metrics_fit, lemma_reset_holds, lemma_step_bound, took_high, tracks,
    tracks_from, ConvolutionalHistoryTable,
};
use super::super::tables::{is_distances, ConvolutionalErrorTable};
use super::super::trellis::{bounded_cost, dot, output_upto, Trellis};
use super::super::util;
use super::super::util::{lemma_dot_zero, lemma_pow2_16, lemma_xor_top};
use super::super::viterbi::{lemma_kept_previous, Run};
use super::distances::{fill_next_distances, fill_next_distances_register};
use super::lane::{Lane, Vector};
use super::oct_lookup::{
    costs_of, eight_output, group_of, in_eights, is_shuffle, lemma_groups, settle_oct,
    settle_permute, settle_shuffle, shuffle_dist, spread_byte, spread_distances, spread_eights,
    widen, DistanceShuffle, OctCosts, OctLookup, PermuteCosts, ShuffleCosts,
};
use super::settle::{high_sum, is_settled, low_sum, sums_fit, BranchCosts};
use vstd::arithmetic::power2::{
    lemma2_to64, lemma_pow2_pos, lemma_pow2_strictly_increases, lemma_pow2_unfold, pow2,
};
use vstd::prelude::*;
use vstd::slice::slice_subrange;

verus! {

/// A particular way to run the main phase of a decode.
#[derive(Debug, Clone, Copy, PartialEq, Eq)]
pub enum ForcedPath {
    /// Metrics in registers, 32 lanes.
    RegisterAvx512,
    /// Metrics in registers, 16 lanes.
    RegisterAvx2,
    /// Metrics in registers, 8 lanes.
    RegisterSse41,
    /// Metrics in registers, 8 lanes, on any host.
    Register128,
    /// Costs in a register, metrics in memory, 32 lanes.
    ShuffleAvx512,
    /// Costs in a register, metrics in memory, 16 lanes.
    ShuffleAvx2,
    /// Costs in a register, metrics in memory, 8 lanes.
    ShuffleSse41,
    /// Costs in a register, metrics in memory, 8 lanes, on any host.
    Shuffle128,
    /// Costs in a wide register, metrics in memory, 32 lanes.
    PermuteAvx512,
    /// Costs by group, metrics in memory, 32 lanes.
    OctLookupAvx512,
    /// Costs by group, metrics in memory, 16 lanes.
    OctLookupAvx2,
    /// Costs by group, metrics in memory, 8 lanes.
    OctLookupSse41,
    /// Costs by group, metrics in memory, 8 lanes, on any host.
    OctLookup128,
}

/// An upper limit on the vector width.
#[derive(Debug, Clone, Copy, PartialEq, Eq)]
pub enum DecoderArch {
    Sse41,
    Avx2,
    Avx512,
}

/// Which vector widths a decoder may use.
#[derive(Debug, Clone, Copy, PartialEq, Eq)]
pub struct EnableArch {
    pub sse41: bool,
    pub avx2: bool,
    pub avx512: bool,
}

impl DecoderArch {
    /// The widths up to this one.
    pub open spec fn enabled(self) -> EnableArch {
        EnableArch {
            sse41: true,
            avx2: !(self is Sse41),
            avx512: self is Avx512,
        }
    }
}

/// Whether a path can run for this code on these widths.
pub open spec fn path_available(path: ForcedPath, rate: int, order: int, arch: EnableArch) -> bool {
    match path {
        ForcedPath::RegisterAvx512 => rate <= 3 && 7 <= order <= 10 && arch.avx512,
        ForcedPath::RegisterAvx2 => rate <= 3 && 6 <= order <= 9 && arch.avx2,
        ForcedPath::RegisterSse41 => rate <= 3 && 5 <= order <= 8 && arch.sse41,
        ForcedPath::Register128 => rate <= 3 && 5 <= order <= 8,
        ForcedPath::ShuffleAvx512 => rate <= 3 && order >= 6 && arch.avx512,
        ForcedPath::ShuffleAvx2 => rate <= 3 && order >= 5 && arch.avx2,
        ForcedPath::ShuffleSse41 => rate <= 3 && arch.sse41,
        ForcedPath::Shuffle128 => rate <= 3,
        ForcedPath::PermuteAvx512 => rate <= 6 && order >= 6 && arch.avx512,
        ForcedPath::OctLookupAvx512 => order >= 6 && arch.avx512,
        ForcedPath::OctLookupAvx2 => order >= 5 && arch.avx2,
        ForcedPath::OctLookupSse41 => arch.sse41,
        ForcedPath::OctLookup128 => true,
    }
}

/// The path that is expected to run fastest.
pub open spec fn preferred_path(rate: int, order: int, arch: EnableArch) -> ForcedPath {
    // a wide lookup beats a shuffle at large orders only, and group lookups always
    let permute = arch.avx512 && order >= 6 && 3 <= rate <= 6 || arch.avx512 && order >= 14 && rate
        <= 3;
    if rate <= 3 && 7 <= order <= 9 && arch.avx512 {
        ForcedPath::RegisterAvx512
    } else if rate <= 3 && 6 <= order <= 8 && arch.avx2 {
        ForcedPath::RegisterAvx2
    } else if rate <= 3 && 5 <= order <= 7 && arch.sse41 {
        ForcedPath::RegisterSse41
    } else if rate <= 3 && 5 <= order <= 7 {
        ForcedPath::Register128
    } else if permute {
        ForcedPath::PermuteAvx512
    } else if rate <= 3 {
        if order >= 6 && arch.avx512 {
            ForcedPath::ShuffleAvx512
        } else if order >= 5 && arch.avx2 {
            ForcedPath::ShuffleAvx2
        } else if arch.sse41 {
            ForcedPath::ShuffleSse41
        } else {
            ForcedPath::Shuffle128
        }
    } else if order >= 6 && arch.avx512 {
        ForcedPath::OctLookupAvx512
    } else if order >= 5 && arch.avx2 {
        ForcedPath::OctLookupAvx2
    } else if arch.sse41 {
        ForcedPath::OctLookupSse41
    } else {
        ForcedPath::OctLookup128
    }
}

/// The table of an output for each register value, one byte each.
pub open spec fn is_byte_table(table: Seq<u8>, code: Trellis) -> bool {
    &&& table.len() == pow2(code.order)
    &&& forall|s: int| 0 <= s < table.len() ==> #[trigger] table[s] == code.output(s)
    &&& forall|s: int| 0 <= s < table.len() ==> #[trigger] table[s] < pow2(code.rate)
}

/// The states come in whole vectors of this width.
pub open spec fn lane_fits(lane: Lane, order: int) -> bool {
    match lane {
        Lane::Lane128 => order >= 4,
        Lane::Lane256 => order >= 5,
        Lane::Lane512 => order >= 6,
    }
}

/// Where a vector starts before the last state, it ends there at the latest.
proof fn lemma_room(lane: Lane, order: nat, at: int)
    requires
        lane_fits(lane, order as int),
        0 <= at < pow2((order - 1) as nat),
        at % lane.width() == 0,
    ensures
        at + lane.width() <= pow2((order - 1) as nat),
        (at + lane.width()) % lane.width() == 0,
        pow2((order - 1) as nat) as int % lane.width() == 0,
        (at + pow2((order - 1) as nat)) % lane.width() == 0,
{
    let n = pow2((order - 1) as nat) as int;
    lemma2_to64();
    match lane {
        Lane::Lane128 => {
            lemma_groups((order - 1) as nat, 3);
            assert(n % 8 == 0 && at % 8 == 0);
            assert(at + 8 <= n && (at + 8) % 8 == 0 && (at + n) % 8 == 0);
        },
        Lane::Lane256 => {
            lemma_groups((order - 1) as nat, 4);
            assert(n % 16 == 0 && at % 16 == 0);
            assert(at + 16 <= n && (at + 16) % 16 == 0 && (at + n) % 16 == 0);
        },
        Lane::Lane512 => {
            lemma_groups((order - 1) as nat, 5);
            assert(n % 32 == 0 && at % 32 == 0);
            assert(at + 32 <= n && (at + 32) % 32 == 0 && (at + n) % 32 == 0);
        },
    }
}

/// The received data is at the start of step `t`.
pub open spec fn channel_at(fill: ConvolutionalError, run: Run, t: int) -> bool {
    &&& fill.ready(run.num_bits())
    &&& fill.pos() == t * run.code.rate
    &&& fill.cost() == run.cost
}

/// The first `n` bits of the message have been written, and there is room for
/// the others.
pub open spec fn emitted(writer: BitWriter, run: Run, n: int) -> bool {
    &&& writer.wf()
    &&& writer.bits().len() == n
    &&& forall|r: int| 0 <= r < n ==> #[trigger] writer.bits()[r] == run.decoded_bit(r)
    &&& run.rows() < 8 * writer.buf@.len() + 8
}

/// A vector holds the costs at step `t` of the registers from `at` on.
pub open spec fn vector_costs(v: Vector, lane: Lane, run: Run, t: nat, at: int) -> bool {
    forall|k: int|
        0 <= k < lane.width() ==> #[trigger] v@[k] == run.code.dist(
            run.cost,
            t as int,
            run.code.output(at + k),
        )
}

/// A Viterbi decoder for a convolutional code that settles many states at a
/// time.
///
/// This decodes identically to the scalar [`Decoder`](super::super::Decoder).
/// The `RATE` and `ORDER` are const generic, so each concrete `(rate, order)`
/// pair is its own type. `RATE` must be between 2 and 8, and `ORDER` between 4
/// and 16.
///
/// The decoder picks the widest path that suits the code. There is nothing to
/// configure. Build it with [`new`](Self::new) and call
/// [`decode_hard`](Self::decode_hard) or [`decode_soft`](Self::decode_soft).
#[derive(Debug, Clone)]
pub struct SimdDecoder<const RATE: u32, const ORDER: u32> {
    polys: Vec<u16>,
    poly_table: Vec<u8>,
    oct_lookup: OctLookup,
    distance_shuffle: DistanceShuffle,
    error_table: ConvolutionalErrorTable,
    history_table: ConvolutionalHistoryTable,
    distances: Vec<u16>,
    force_path: Option<ForcedPath>,
    enable_arch: EnableArch,
}

impl<const RATE: u32, const ORDER: u32> SimdDecoder<RATE, ORDER> {
    /// The code that this decoder decodes.
    pub closed spec fn code(self) -> Trellis {
        Trellis { rate: RATE as nat, order: ORDER as nat, polys: self.polys@ }
    }

    /// The tables belong to the code.
    pub closed spec fn wf(self) -> bool {
        let code = self.code();
        &&& code.valid()
        &&& 2 <= RATE <= 8
        &&& 4 <= ORDER <= 16
        &&& is_byte_table(self.poly_table@, code)
        &&& self.oct_lookup.wf(self.poly_table@)
        &&& self.distance_shuffle.wf(code.rate, code.order, self.poly_table@)
        &&& self.history_table.fits(code)
        &&& self.error_table.errors@.len() == code.num_states()
        &&& self.error_table.previous_errors@.len() == code.num_states()
        &&& self.distances@.len() >= pow2(code.rate)
        &&& self.distances@.len() <= 256
        &&& self.distances@.len() >= 64
    }

    /// The path that was asked for, if any.
    pub closed spec fn forced(self) -> Option<ForcedPath> {
        self.force_path
    }

    /// The widths that may be used.
    pub closed spec fn arch(self) -> EnableArch {
        self.enable_arch
    }

    /// A forced path can run.
    pub open spec fn can_run(self) -> bool {
        match self.forced() {
            Some(path) => path_available(path, RATE as int, ORDER as int, self.arch()),
            None => true,
        }
    }

    /// Everything but the working state is as it was.
    closed spec fn same_code(self, other: SimdDecoder<RATE, ORDER>) -> bool {
        &&& self.polys == other.polys
        &&& self.poly_table == other.poly_table
        &&& self.distance_shuffle == other.distance_shuffle
        &&& self.force_path == other.force_path
        &&& self.enable_arch == other.enable_arch
    }

    /// Steps before `t` are done, and `start` bits of the message are out.
    closed spec fn at_step(self, run: Run, t: nat, start: int) -> bool {
        &&& self.wf()
        &&& run.valid()
        &&& run.code == self.code()
        &&& run.head() <= t
        &&& self.history_table.holds(run, t - run.head(), start)
        &&& tracks(run, t, self.error_table.previous_errors@, self.history_table.slack())
    }

    /// Creates a decoder for the convolutional code with the given generator
    /// polynomials.
    ///
    /// `polys` must contain exactly `RATE` polynomials, in the same octal
    /// convention as [`Encoder::new`](super::super::Encoder::new). The tables are
    /// built here, so build the decoder once and reuse it.
    pub fn new(polys: &[u16]) -> (decoder: SimdDecoder<RATE, ORDER>)
        requires
            2 <= RATE <= 8,
            4 <= ORDER <= 16,
            polys@.len() == RATE,
        ensures
            decoder.wf(),
            decoder.code() == (Trellis { rate: RATE as nat, order: ORDER as nat, polys: polys@ }),
            decoder.forced() is None,
            decoder.arch() == (EnableArch { sse41: true, avx2: true, avx512: true }),
    {
        let ghost code = Trellis { rate: RATE as nat, order: ORDER as nat, polys: polys@ };
        let rate: u32 = RATE;
        let order: u32 = ORDER;
        proof {
            lemma_pow2_16((order - 1) as nat);
            lemma2_to64();
            lemma_pow2_strictly_increases((order - 1) as nat, 16);
            lemma_pow2_unfold(order as nat);
            if rate < 8 {
                lemma_pow2_strictly_increases(rate as nat, 8);
            }
        }
        let wide: Vec<u16> = util::conv_poly_table(rate, order, polys);
        let mut poly_table: Vec<u8> = Vec::with_capacity(wide.len());
        let mut i: usize = 0;
        while i < wide.len()
            invariant
                i <= wide@.len(),
                pow2(code.rate) <= 256,
                wide@.len() == pow2(code.order),
                forall|s: int| 0 <= s < wide@.len() ==> #[trigger] wide@[s] == code.output(s),
                forall|s: int| 0 <= s < wide@.len() ==> #[trigger] wide@[s] < pow2(code.rate),
                poly_table@.len() == i,
                forall|s: int| 0 <= s < i ==> #[trigger] poly_table@[s] == code.output(s),
                forall|s: int| 0 <= s < i ==> #[trigger] poly_table@[s] < pow2(code.rate),
            decreases wide@.len() - i,
        {
            assert(wide@[i as int] < pow2(code.rate));
            poly_table.push(wide[i] as u8);
            i = i + 1;
        }
        let max_error: u32 = rate * 255;
        let renorm: u32 = 32767 / max_error;
        let num_survivors: u32 = util::num_states_for_order(order - 1);
        let group: u32 = util::traceback_group_length(order) as u32;
        assert((5 * order + group) * num_survivors <= 900 * 32768) by (nonlinear_arith)
            requires
                0 <= 5 * order + group <= 900,
                0 <= num_survivors <= 32768,
        ;
        let history_table = ConvolutionalHistoryTable::new(
            5 * order,
            group,
            renorm,
            num_survivors,
            num_survivors as u16,
        );
        let outputs: usize = util::num_states_for_order(rate) as usize;
        // the wide lookup always reads 64 costs
        let num_distances: usize = if outputs < 64 {
            64
        } else {
            outputs
        };
        SimdDecoder {
            polys: vstd::slice::slice_to_vec(polys),
            oct_lookup: OctLookup::new(rate, order, &poly_table),
            distance_shuffle: DistanceShuffle::new(rate, order, &poly_table),
            poly_table,
            error_table: ConvolutionalErrorTable::new(num_survivors as usize),
            history_table,
            distances: vec![0u16; num_distances],
            force_path: None,
            enable_arch: EnableArch { sse41: true, avx2: true, avx512: true },
        }
    }

    /// Forces a decode path, for testing and performance tuning.
    pub fn with_path(self, path: Option<ForcedPath>) -> (decoder: SimdDecoder<RATE, ORDER>)
        requires
            self.wf(),
        ensures
            decoder.wf(),
            decoder.code() == self.code(),
            decoder.forced() == path,
            decoder.arch() == self.arch(),
    {
        let mut decoder = self;
        decoder.force_path = path;
        decoder
    }

    /// Limits the vector width, for testing and performance tuning.
    pub fn with_max_arch(self, arch: DecoderArch) -> (decoder: SimdDecoder<RATE, ORDER>)
        requires
            self.wf(),
        ensures
            decoder.wf(),
            decoder.code() == self.code(),
            decoder.forced() == self.forced(),
            decoder.arch() == arch.enabled(),
            decoder.arch().sse41,
            decoder.arch().avx2 <==> arch is Avx2 || arch is Avx512,
            decoder.arch().avx512 <==> arch is Avx512,
    {
        let mut decoder = self;
        decoder.enable_arch = match arch {
            DecoderArch::Sse41 => EnableArch { sse41: true, avx2: false, avx512: false },
            DecoderArch::Avx2 => EnableArch { sse41: true, avx2: true, avx512: false },
            DecoderArch::Avx512 => EnableArch { sse41: true, avx2: true, avx512: true },
        };
        decoder
    }

    /// The states below `upto` are settled at step `t`.
    closed spec fn settled(
        self,
        run: Run,
        t: nat,
        start: int,
        slack: int,
        upto: int,
    ) -> bool {
        &&& self.wf()
        &&& run.valid()
        &&& run.code == self.code()
        &&& run.head() <= t
        &&& t < run.total - run.head()
        &&& self.history_table.holds(run, t - run.head(), start)
        &&& self.history_table.slack() == slack
        &&& forall|s: int|
            0 <= s < upto ==> #[trigger] self.history_table.recorded(run, t - run.head(), s)
    }

    /// Adds costs to the metrics of both predecessors of the states from
    /// `survivor` on, keeps the better of each pair, and records which it was.
    #[inline(always)]
    fn settle(
        &mut self,
        lane: Lane,
        survivor: usize,
        low_dist: &Vector,
        high_dist: &Vector,
        low_prev: &Vector,
        high_prev: &Vector,
        Ghost(run): Ghost<Run>,
        Ghost(t): Ghost<nat>,
        Ghost(start): Ghost<int>,
        Ghost(slack): Ghost<int>,
        Ghost(base): Ghost<nat>,
    ) -> (v: Vector)
        requires
            old(self).settled(run, t, start, slack, survivor as int),
            survivor as int % lane.width() == 0,
            survivor + lane.width() <= run.code.num_states(),
            vector_costs(*low_dist, lane, run, t, survivor as int),
            vector_costs(*high_dist, lane, run, t, survivor + run.code.num_states()),
            forall|k: int|
                0 <= k < lane.width() ==> {
                    let p = (survivor + k) / 2;
                    &&& #[trigger] low_prev@[k] + base == run.code.metric(run.cost, t, p)
                    &&& low_prev@[k] <= (run.head() + slack) * run.code.max_dist()
                },
            forall|k: int|
                0 <= k < lane.width() ==> {
                    let p = (survivor + k) / 2 + pow2((run.code.order - 2) as nat);
                    &&& #[trigger] high_prev@[k] + base == run.code.metric(run.cost, t, p)
                    &&& high_prev@[k] <= (run.head() + slack) * run.code.max_dist()
                },
        ensures
            final(self).settled(run, t, start, slack, survivor + lane.width()),
            *final(self) == (SimdDecoder {
                history_table: final(self).history_table,
                ..*old(self)
            }),
            forall|k: int|
                0 <= k < lane.width() ==> {
                    &&& #[trigger] v@[k] + base == run.code.metric(
                        run.cost,
                        t + 1,
                        survivor + k,
                    )
                    &&& v@[k] <= (run.head() + slack + 1) * run.code.max_dist()
                },
    {
        let ghost d = run.code.max_dist() as int;
        let ghost n = run.code.num_states() as int;
        proof {
            lemma_holds_fits(self.history_table, run, t - run.head(), start);
            lemma_metrics_fit(run, slack);
            lemma_metrics_fit(run, slack + 1);
            assert forall|k: int| 0 <= k < lane.width() implies #[trigger] low_dist@[k]
                + low_prev@[k] <= u16::MAX by {
                run.code.lemma_dist(run.cost, t as int, run.code.output(survivor + k));
                assert(low_prev@[k] <= (run.head() + slack) * d);
            }
            assert forall|k: int| 0 <= k < lane.width() implies #[trigger] high_dist@[k]
                + high_prev@[k] <= u16::MAX by {
                run.code.lemma_dist(run.cost, t as int, run.code.output(survivor + n + k));
                assert(high_prev@[k] <= (run.head() + slack) * d);
            }
        }
        let (v, flags): (Vector, [u8; 32]) = lane.add_select(
            low_dist,
            low_prev,
            high_dist,
            high_prev,
        );
        proof {
            assert forall|k: int| 0 <= k < lane.width() implies {
                &&& #[trigger] v@[k] + base == run.code.metric(run.cost, t + 1, survivor + k)
                &&& v@[k] <= (run.head() + slack + 1) * d
                &&& took_high(run, t as int, survivor + k) == (flags@[k] != 0)
            } by {
                let low_error = low_dist@[k] + low_prev@[k];
                let high_error = high_dist@[k] + high_prev@[k];
                let s = survivor + k;
                lemma_high_low(run.code, s);
                run.code.lemma_dist(run.cost, t as int, run.code.output(s));
                run.code.lemma_dist(run.cost, t as int, run.code.output(s + n));
                assert(low_dist@[k] == run.code.dist(run.cost, t as int, run.code.output(s)));
                assert(high_dist@[k] == run.code.dist(
                    run.cost,
                    t as int,
                    run.code.output(survivor + n + k),
                ));
                assert((flags@[k] != 0) == (low_error > high_error));
                lemma_select(run, t, base, s, low_error, high_error);
            }
        }
        let ghost rows = t - run.head();
        assert(run.head() + rows == t);
        let part: &[u8] = slice_subrange(&flags, 0, lane.lanes());
        assert forall|j: int| 0 <= j < part@.len() implies (#[trigger] part@[j] != 0) == took_high(
            run,
            run.head() + rows,
            survivor + j,
        ) by {
            assert(part@[j] == flags@[j]);
            let _ = v@[j];
        }
        self.history_table.record_flags(
            survivor,
            part,
            Ghost(run),
            Ghost(rows),
            Ghost(start),
        );
        proof {
            lemma_holds_fits(self.history_table, run, rows, start);
        }
        v
    }

    /// All states are settled at step `t`.
    closed spec fn step_done(self, run: Run, t: nat, start: int, slack: int) -> bool {
        &&& self.wf()
        &&& run.valid()
        &&& run.code == self.code()
        &&& run.head() <= t < run.total
        &&& self.history_table.holds(run, t - run.head(), start)
        &&& self.history_table.slack() == slack
        &&& forall|s: int|
            run.kept(t as int, s) ==> #[trigger] self.history_table.recorded(
                run,
                t - run.head(),
                s,
            )
        &&& tracks(run, t + 1, self.error_table.errors@, slack + 1)
    }

    /// Closes a step: keeps the metrics within range, traces back when the
    /// history is full, and makes the current metrics the previous ones.
    fn finish_step(
        &mut self,
        step: usize,
        decoded: &mut BitWriter,
        Ghost(run): Ghost<Run>,
        Ghost(t): Ghost<nat>,
        Ghost(start): Ghost<int>,
    ) -> (next: Ghost<int>)
        requires
            old(self).step_done(run, t, start, old(self).history_table.slack()),
            step == run.step_at(t as int),
            emitted(*old(decoded), run, start),
        ensures
            final(self).at_step(run, t + 1, next@),
            final(self).same_code(*old(self)),
            emitted(*final(decoded), run, next@),
            final(decoded).buf@.len() == old(decoded).buf@.len(),
            final(final(decoded).buf)@ == final(old(decoded).buf)@,
    {
        let next: Ghost<int> = self.history_table.process_step(
            step,
            &mut self.error_table.errors,
            decoded,
            Ghost(run),
            Ghost(t - run.head()),
            Ghost(start),
        );
        proof {
            lemma_holds_fits(self.history_table, run, t + 1 - run.head(), next@);
        }
        self.error_table.swap();
        next
    }

    /// The step is done once every state is settled and the row holds the flags.
    proof fn lemma_step_done(
        self,
        before: ConvolutionalHistoryTable,
        row: Seq<u8>,
        run: Run,
        t: nat,
        start: int,
        base: nat,
        costs: Seq<u16>,
    )
        requires
            before.holds(run, t - run.head(), start),
            before.fits(run.code) ==> (SimdDecoder { history_table: before, ..self }).wf(),
            before.refilled(self.history_table, row),
            row.len() == run.code.num_states(),
            run.valid(),
            run.code == self.code(),
            run.head() <= t < run.total - run.head(),
            tracks_from(run, t, self.error_table.previous_errors@, before.slack(), base),
            self.error_table.previous_errors@.len() == run.code.num_states(),
            are_costs(costs, run, t),
            forall|s: int|
                0 <= s < run.code.num_states() ==> #[trigger] is_settled(
                    costs,
                    self.error_table.previous_errors@,
                    self.error_table.errors@,
                    row,
                    s,
                ),
        ensures
            self.step_done(run, t, start, before.slack()),
            self.history_table.slack() == before.slack(),
    {
        let rows = t - run.head();
        let slack = before.slack();
        let prevs = self.error_table.previous_errors@;
        let errors = self.error_table.errors@;
        lemma_holds_fits(before, run, rows, start);
        lemma_metrics_fit(run, slack + 1);
        before.lemma_refilled(self.history_table, row, run, rows, start);
        lemma_holds_fits(self.history_table, run, rows, start);
        assert(run.head() + rows == t);
        assert forall|s: int| 0 <= s < run.code.num_states() implies {
            &&& #[trigger] errors[s] + base == run.code.metric(run.cost, t + 1, s)
            &&& errors[s] <= (run.head() + slack + 1) * run.code.max_dist()
            &&& (row[s] != 0) == took_high(run, t as int, s)
        } by {
            assert(is_settled(costs, prevs, errors, row, s));
            lemma_sums(run, t, base, prevs, slack, costs, s);
        }
        assert forall|s: int| run.kept(t as int, s) implies #[trigger] self.history_table.recorded(
            run,
            rows,
            s,
        ) by {
            assert(errors[s] + base == run.code.metric(run.cost, t + 1, s));
        }
        assert(tracks_from(run, t + 1, errors, slack + 1, base));
    }

    /// One step with the costs looked up by group.
    #[inline(always)]
    fn oct_lookup_step(&mut self, lane: Lane, Ghost(run): Ghost<Run>, Ghost(t): Ghost<nat>, Ghost(
        start,
    ): Ghost<int>)
        requires
            lane_fits(lane, ORDER as int),
            old(self).at_step(run, t, start),
            t < run.total - run.head(),
            is_distances(old(self).distances@, run, t as int),
        ensures
            final(self).step_done(run, t, start, old(self).history_table.slack()),
            final(self).history_table.slack() == old(self).history_table.slack(),
            final(self).same_code(*old(self)),
    {
        let ghost table = self.poly_table@;
        proof {
            assert forall|s: int| 0 <= s < table.len() implies #[trigger] table[s]
                < self.distances@.len() by {}
        }
        self.oct_lookup.fill_for(lane, &self.distances, Ghost(table));
        let ghost slack = self.history_table.slack();
        let ghost prevs = self.error_table.previous_errors@;
        let ghost base = choose|base: nat| #[trigger] tracks_from(run, t, prevs, slack, base);
        let source = OctCosts {
            lookup: &self.oct_lookup,
            lane,
            distances: Ghost(self.distances@),
            poly_table: Ghost(table),
        };
        let ghost costs = source.costs();
        proof {
            lemma_pow2_16(run.code.order);
            lemma_pow2_unfold(run.code.order);
            lemma_groups_fit(lane, run.code.order);
            lemma_holds_fits(self.history_table, run, t - run.head(), start);
            lemma_costs(run, t, self.distances@, table);
            lemma_all_fit(run, t, base, prevs, slack, costs);
        }
        let ghost before = self.history_table;
        proof {
            before.lemma_has_row(run, t - run.head(), start);
        }
        let row = self.history_table.get_slice();
        settle_oct(&source, &self.error_table.previous_errors, &mut self.error_table.errors, row);
        let ghost filled = row@;
        proof {
            self.lemma_step_done(before, filled, run, t, start, base, costs);
        }
    }

    /// One step with the costs shuffled into place from a single register.
    #[inline(always)]
    fn shuffle_step(
        &mut self,
        lane: Lane,
        dist: &[u16; 8],
        Ghost(run): Ghost<Run>,
        Ghost(t): Ghost<nat>,
        Ghost(start): Ghost<int>,
    )
        requires
            lane_fits(lane, ORDER as int),
            RATE <= 3,
            old(self).at_step(run, t, start),
            t < run.total - run.head(),
            is_distances(dist@, run, t as int),
        ensures
            final(self).step_done(run, t, start, old(self).history_table.slack()),
            final(self).history_table.slack() == old(self).history_table.slack(),
            final(self).same_code(*old(self)),
    {
        let ghost table = self.poly_table@;
        let ghost slack = self.history_table.slack();
        let ghost prevs = self.error_table.previous_errors@;
        let ghost base = choose|base: nat| #[trigger] tracks_from(run, t, prevs, slack, base);
        proof {
            lemma_pow2_16(run.code.order);
            lemma_pow2_unfold(run.code.order);
            lemma_small_outputs(table, run.code);
            lemma_groups_fit(Lane::Lane128, run.code.order);
            lemma_holds_fits(self.history_table, run, t - run.head(), start);
            lemma_costs(run, t, dist@, table);
        }
        let bytes: [u8; 64] = spread_distances(dist);
        let source = ShuffleCosts {
            lane,
            masks: self.distance_shuffle.shuffle_masks(lane),
            bytes: &bytes,
            distances: Ghost(dist@),
            poly_table: Ghost(table),
        };
        let ghost costs = source.costs();
        proof {
            lemma_all_fit(run, t, base, prevs, slack, costs);
        }
        let ghost before = self.history_table;
        proof {
            before.lemma_has_row(run, t - run.head(), start);
        }
        let row = self.history_table.get_slice();
        settle_shuffle(&source, &self.error_table.previous_errors, &mut self.error_table.errors, row);
        let ghost filled = row@;
        proof {
            self.lemma_step_done(before, filled, run, t, start, base, costs);
        }
    }

    /// One step with the costs of eight registers looked up by the output of the
    /// first.
    #[inline(always)]
    fn permute_step(&mut self, lane: Lane, Ghost(run): Ghost<Run>, Ghost(t): Ghost<nat>, Ghost(
        start,
    ): Ghost<int>)
        requires
            lane_fits(lane, ORDER as int),
            old(self).at_step(run, t, start),
            t < run.total - run.head(),
            is_distances(old(self).distances@, run, t as int),
        ensures
            final(self).step_done(run, t, start, old(self).history_table.slack()),
            final(self).history_table.slack() == old(self).history_table.slack(),
            final(self).same_code(*old(self)),
    {
        let ghost table = self.poly_table@;
        let ghost slack = self.history_table.slack();
        let ghost prevs = self.error_table.previous_errors@;
        let ghost base = choose|base: nat| #[trigger] tracks_from(run, t, prevs, slack, base);
        let wide: [u16; 256] = widen(&self.distances);
        proof {
            lemma_pow2_16(run.code.order);
            lemma_pow2_unfold(run.code.order);
            lemma_groups_fit(Lane::Lane128, run.code.order);
            lemma_in_eights(table, run.code);
            lemma_holds_fits(self.history_table, run, t - run.head(), start);
            lemma_costs(run, t, wide@, table);
        }
        let outputs: usize = util::num_states_for_order(RATE) as usize;
        let eights: [u16; 2048] = spread_eights(&wide, outputs, &self.poly_table);
        let source = PermuteCosts {
            eights: &eights,
            poly_table: &self.poly_table,
            outputs: Ghost(outputs as int),
            distances: Ghost(wide@),
        };
        let ghost costs = source.costs();
        proof {
            lemma_all_fit(run, t, base, prevs, slack, costs);
        }
        let ghost before = self.history_table;
        proof {
            before.lemma_has_row(run, t - run.head(), start);
        }
        let row = self.history_table.get_slice();
        settle_permute(&source, &self.error_table.previous_errors, &mut self.error_table.errors, row);
        let ghost filled = row@;
        proof {
            self.lemma_step_done(before, filled, run, t, start, base, costs);
        }
    }

    /// Main phase with the costs looked up by group: close to the scalar decoder,
    /// but 8 or 16 costs at a time.
    #[inline(always)]
    fn decode_body_oct_lookup(
        &mut self,
        lane: Lane,
        distance_fill: &mut ConvolutionalError,
        num_decoded_bits: usize,
        decoded: &mut BitWriter,
        Ghost(run): Ghost<Run>,
    ) -> (next: Ghost<int>)
        requires
            lane_fits(lane, ORDER as int),
            old(self).at_step(run, run.head(), 0),
            run.total == num_decoded_bits,
            channel_at(*old(distance_fill), run, run.head() as int),
            emitted(*old(decoded), run, 0),
        ensures
            final(self).at_step(run, (run.total - run.head()) as nat, next@),
            final(self).same_code(*old(self)),
            channel_at(*final(distance_fill), run, run.total - run.head()),
            emitted(*final(decoded), run, next@),
            final(decoded).buf@.len() == old(decoded).buf@.len(),
            final(final(decoded).buf)@ == final(old(decoded).buf)@,
    {
        let ghost begin = *self;
        let ghost first_writer = *decoded;
        let ghost mut start: int = 0;
        let head: usize = (ORDER - 1) as usize;
        let end: usize = num_decoded_bits - head;
        let mut t: usize = head;
        while t < end
            invariant
                head <= t <= end,
                head == run.head(),
                end == run.total - run.head(),
                lane_fits(lane, ORDER as int),
                self.at_step(run, t as nat, start),
                self.same_code(begin),
                channel_at(*distance_fill, run, t as int),
                emitted(*decoded, run, start),
                decoded.buf@.len() == first_writer.buf@.len(),
                final(decoded.buf)@ == final(first_writer.buf)@,
            decreases end - t,
        {
            fill_next_distances(
                distance_fill,
                &mut self.distances,
                RATE,
                Ghost(run),
                Ghost(t as int),
            );
            self.oct_lookup_step(lane, Ghost(run), Ghost(t as nat), Ghost(start));
            let next: Ghost<int> = self.finish_step(
                1,
                decoded,
                Ghost(run),
                Ghost(t as nat),
                Ghost(start),
            );
            proof {
                start = next@;
            }
            t = t + 1;
        }
        Ghost(start)
    }

    /// Main phase with the costs in a register: they are shuffled into place without
    /// another trip to memory.
    #[inline(always)]
    fn decode_body_shuffle(
        &mut self,
        lane: Lane,
        distance_fill: &mut ConvolutionalError,
        num_decoded_bits: usize,
        decoded: &mut BitWriter,
        Ghost(run): Ghost<Run>,
    ) -> (next: Ghost<int>)
        requires
            lane_fits(lane, ORDER as int),
            RATE <= 3,
            old(self).at_step(run, run.head(), 0),
            run.total == num_decoded_bits,
            channel_at(*old(distance_fill), run, run.head() as int),
            emitted(*old(decoded), run, 0),
        ensures
            final(self).at_step(run, (run.total - run.head()) as nat, next@),
            final(self).same_code(*old(self)),
            channel_at(*final(distance_fill), run, run.total - run.head()),
            emitted(*final(decoded), run, next@),
            final(decoded).buf@.len() == old(decoded).buf@.len(),
            final(final(decoded).buf)@ == final(old(decoded).buf)@,
    {
        let ghost begin = *self;
        let ghost first_writer = *decoded;
        let ghost mut start: int = 0;
        let head: usize = (ORDER - 1) as usize;
        let end: usize = num_decoded_bits - head;
        let mut t: usize = head;
        while t < end
            invariant
                head <= t <= end,
                head == run.head(),
                end == run.total - run.head(),
                lane_fits(lane, ORDER as int),
                RATE <= 3,
                self.at_step(run, t as nat, start),
                self.same_code(begin),
                channel_at(*distance_fill, run, t as int),
                emitted(*decoded, run, start),
                decoded.buf@.len() == first_writer.buf@.len(),
                final(decoded.buf)@ == final(first_writer.buf)@,
            decreases end - t,
        {
            let dist: [u16; 8] = fill_next_distances_register(
                distance_fill,
                RATE,
                Ghost(run),
                Ghost(t as int),
            );
            self.shuffle_step(lane, &dist, Ghost(run), Ghost(t as nat), Ghost(start));
            let next: Ghost<int> = self.finish_step(
                1,
                decoded,
                Ghost(run),
                Ghost(t as nat),
                Ghost(start),
            );
            proof {
                start = next@;
            }
            t = t + 1;
        }
        Ghost(start)
    }

    /// Main phase with the costs in a wide register, picked by the output of each
    /// shift register.
    #[inline(always)]
    fn decode_body_permute(
        &mut self,
        lane: Lane,
        distance_fill: &mut ConvolutionalError,
        num_decoded_bits: usize,
        decoded: &mut BitWriter,
        Ghost(run): Ghost<Run>,
    ) -> (next: Ghost<int>)
        requires
            lane_fits(lane, ORDER as int),
            RATE <= 6,
            old(self).at_step(run, run.head(), 0),
            run.total == num_decoded_bits,
            channel_at(*old(distance_fill), run, run.head() as int),
            emitted(*old(decoded), run, 0),
        ensures
            final(self).at_step(run, (run.total - run.head()) as nat, next@),
            final(self).same_code(*old(self)),
            channel_at(*final(distance_fill), run, run.total - run.head()),
            emitted(*final(decoded), run, next@),
            final(decoded).buf@.len() == old(decoded).buf@.len(),
            final(final(decoded).buf)@ == final(old(decoded).buf)@,
    {
        let ghost begin = *self;
        let ghost first_writer = *decoded;
        let ghost mut start: int = 0;
        let head: usize = (ORDER - 1) as usize;
        let end: usize = num_decoded_bits - head;
        let mut t: usize = head;
        while t < end
            invariant
                head <= t <= end,
                head == run.head(),
                end == run.total - run.head(),
                lane_fits(lane, ORDER as int),
                RATE <= 6,
                self.at_step(run, t as nat, start),
                self.same_code(begin),
                channel_at(*distance_fill, run, t as int),
                emitted(*decoded, run, start),
                decoded.buf@.len() == first_writer.buf@.len(),
                final(decoded.buf)@ == final(first_writer.buf)@,
            decreases end - t,
        {
            fill_next_distances(
                distance_fill,
                &mut self.distances,
                RATE,
                Ghost(run),
                Ghost(t as int),
            );
            self.permute_step(lane, Ghost(run), Ghost(t as nat), Ghost(start));
            let next: Ghost<int> = self.finish_step(
                1,
                decoded,
                Ghost(run),
                Ghost(t as nat),
                Ghost(start),
            );
            proof {
                start = next@;
            }
            t = t + 1;
        }
        Ghost(start)
    }

    /// One step with metrics and costs in registers. Even and odd registers share
    /// a register of predecessors, and read different halves of it.
    #[verifier::rlimit(30)]
    fn register_step(
        &mut self,
        lane: Lane,
        num_registers: usize,
        prev: &[Vector; 16],
        dist: &[u16; 8],
        Ghost(run): Ghost<Run>,
        Ghost(t): Ghost<nat>,
        Ghost(start): Ghost<int>,
    ) -> (cur: [Vector; 16])
        requires
            register_fits(lane, ORDER as int),
            RATE <= 3,
            num_registers * lane.width() == run.code.num_states(),
            old(self).settled(run, t, start, old(self).history_table.slack(), 0),
            tracks(
                run,
                t,
                flat(prev@, lane.width(), run.code.num_states()),
                old(self).history_table.slack(),
            ),
            is_distances(dist@, run, t as int),
        ensures
            final(self).settled(
                run,
                t,
                start,
                old(self).history_table.slack(),
                run.code.num_states() as int,
            ),
            *final(self) == (SimdDecoder {
                history_table: final(self).history_table,
                ..*old(self)
            }),
            tracks(
                run,
                t + 1,
                flat(cur@, lane.width(), run.code.num_states()),
                old(self).history_table.slack() + 1,
            ),
    {
        let ghost table = self.poly_table@;
        let ghost first = *self;
        let ghost slack = self.history_table.slack();
        let ghost n = run.code.num_states() as int;
        let ghost w = lane.width();
        let ghost prevs = flat(prev@, w, run.code.num_states());
        let ghost base = choose|base: nat| #[trigger] tracks_from(run, t, prevs, slack, base);
        proof {
            lemma_pow2_16(run.code.order);
            lemma_pow2_unfold(run.code.order);
            lemma_pow2_unfold((run.code.order - 1) as nat);
            lemma_small_outputs(table, run.code);
            lemma_registers(lane, run.code.order, num_registers as int);
            assert(0 * w == 0);
        }
        let num_survivors: usize = util::num_states_for_order(ORDER - 1) as usize;
        let lanes: usize = lane.lanes();
        let bytes: [u8; 64] = spread_distances(dist);
        let mut cur: [Vector; 16] = [[0u16; 32]; 16];
        let mut register: usize = 0;
        while register < num_registers
            invariant
                register_fits(lane, ORDER as int),
                lanes == w,
                w == lane.width(),
                n == run.code.num_states(),
                num_survivors == n,
                num_survivors <= 32768,
                pow2((run.code.order - 2) as nat) * 2 == n,
                2 <= num_registers <= 16,
                num_registers % 2 == 0,
                num_registers * w == n,
                register <= num_registers,
                first.wf(),
                run.code == first.code(),
                table == first.poly_table@,
                table.len() == 2 * num_survivors,
                is_distances(dist@, run, t as int),
                is_shuffle(first.distance_shuffle.masks_for(lane), table, w),
                forall|s: int| 0 <= s < table.len() ==> #[trigger] table[s] < 8,
                forall|i: int| 0 <= i < 64 ==> #[trigger] bytes@[i] == spread_byte(dist@, i),
                prevs == flat(prev@, w, run.code.num_states()),
                tracks_from(run, t, prevs, slack, base),
                *self == (SimdDecoder { history_table: self.history_table, ..first }),
                self.settled(run, t, start, slack, register * w),
                forall|r: int, k: int|
                    0 <= r < register && 0 <= k < w ==> {
                        &&& #[trigger] cur@[r]@[k] + base == run.code.metric(
                            run.cost,
                            t + 1,
                            r * w + k,
                        )
                        &&& cur@[r]@[k] <= (run.head() + slack + 1) * run.code.max_dist()
                    },
            decreases num_registers - register,
        {
            let ghost at = register * w;
            let ghost q = register as int / 2;
            let ghost odd = register % 2 == 1;
            let ghost half = num_registers as int / 2;
            proof {
                assert(0 <= at && at + w == (register + 1) * w && (register + 1) * w
                    <= num_registers * w && at % w == 0) by {
                    assert(0 <= at && at + w == (register + 1) * w && (register + 1) * w
                        <= num_registers * w) by (nonlinear_arith)
                        requires
                            at == register * w,
                            register + 1 <= num_registers,
                            0 <= w,
                    ;
                    vstd::arithmetic::div_mod::lemma_mod_multiples_basic(register as int, w);
                }
                assert(at == 2 * (q * w) + if odd {
                    w
                } else {
                    0
                } && half * w == n / 2) by (nonlinear_arith)
                    requires
                        at == register * w,
                        register == 2 * q + if odd {
                            1int
                        } else {
                            0
                        },
                        num_registers == 2 * half,
                        num_registers * w == n,
                ;
                assert((q + half) * w == q * w + n / 2) by (nonlinear_arith)
                    requires
                        half * w == n / 2,
                ;
                lemma_high_place(lane, at, n, run.code.order);
            }
            let survivor: usize = register * lanes;
            let masks: &[u8] = self.distance_shuffle.shuffle_masks(lane);
            let low_dist: Vector = shuffle_dist(
                lane,
                masks,
                survivor,
                &bytes,
                Ghost(dist@),
                Ghost(table),
            );
            let high_dist: Vector = shuffle_dist(
                lane,
                masks,
                survivor + num_survivors,
                &bytes,
                Ghost(dist@),
                Ghost(table),
            );
            let low_prev: Vector = lane.pred_half(&prev[register / 2], register % 2 == 1);
            let high_prev: Vector = lane.pred_half(
                &prev[register / 2 + num_registers / 2],
                register % 2 == 1,
            );
            proof {
                lemma_table_costs(low_dist, lane, run, t, at, dist@, table);
                lemma_table_costs(high_dist, lane, run, t, at + n, dist@, table);
                assert forall|k: int| 0 <= k < w implies {
                    let p = (survivor + k) / 2;
                    &&& #[trigger] low_prev@[k] + base == run.code.metric(run.cost, t, p)
                    &&& low_prev@[k] <= (run.head() + slack) * run.code.max_dist()
                } by {
                    let p = (survivor + k) / 2;
                    let r = (if odd {
                        w / 2
                    } else {
                        0
                    }) + k / 2;
                    assert(p == q * w + r);
                    vstd::arithmetic::div_mod::lemma_fundamental_div_mod_converse(p, w, q, r);
                    assert(prevs[p] == prev@[q]@[r]);
                    assert(run.kept(t - 1, p));
                    assert(prevs[p] + base == run.code.metric(run.cost, t, p));
                }
                assert forall|k: int| 0 <= k < w implies {
                    let p = (survivor + k) / 2 + pow2((run.code.order - 2) as nat);
                    &&& #[trigger] high_prev@[k] + base == run.code.metric(run.cost, t, p)
                    &&& high_prev@[k] <= (run.head() + slack) * run.code.max_dist()
                } by {
                    let p = (survivor + k) / 2 + n / 2;
                    let r = (if odd {
                        w / 2
                    } else {
                        0
                    }) + k / 2;
                    assert(p == (q + half) * w + r);
                    vstd::arithmetic::div_mod::lemma_fundamental_div_mod_converse(
                        p,
                        w,
                        q + half,
                        r,
                    );
                    assert(prevs[p] == prev@[q + half]@[r]);
                    assert(run.kept(t - 1, p));
                    assert(prevs[p] + base == run.code.metric(run.cost, t, p));
                }
            }
            let v: Vector = self.settle(
                lane,
                survivor,
                &low_dist,
                &high_dist,
                &low_prev,
                &high_prev,
                Ghost(run),
                Ghost(t),
                Ghost(start),
                Ghost(slack),
                Ghost(base),
            );
            let ghost old_cur = cur@;
            cur[register] = v;
            proof {
                assert forall|r: int, k: int| 0 <= r < register + 1 && 0 <= k < w implies {
                    &&& #[trigger] cur@[r]@[k] + base == run.code.metric(
                        run.cost,
                        t + 1,
                        r * w + k,
                    )
                    &&& cur@[r]@[k] <= (run.head() + slack + 1) * run.code.max_dist()
                } by {
                    if r < register {
                        assert(cur@[r] == old_cur[r]);
                        assert(old_cur[r]@[k] + base == run.code.metric(
                            run.cost,
                            t + 1,
                            r * w + k,
                        ));
                    } else {
                        assert(v@[k] + base == run.code.metric(run.cost, t + 1, survivor + k));
                    }
                }
            }
            register = register + 1;
        }
        proof {
            let out = flat(cur@, w, run.code.num_states());
            assert forall|s: int| run.kept(t as int, s) implies {
                &&& #[trigger] out[s] + base == run.code.metric(run.cost, t + 1, s)
                &&& out[s] <= (run.head() + (slack + 1)) * run.code.max_dist()
            } by {
                let (r, k) = (s / w, s % w);
                lemma_register_of(s, w, num_registers as int);
                assert(cur@[r]@[k] + base == run.code.metric(run.cost, t + 1, r * w + k));
            }
            assert(tracks_from(run, t + 1, out, slack + 1, base));
        }
        cur
    }

    /// Main phase with everything in registers: the only memory traffic is the
    /// received data coming in and the decisions going out.
    fn decode_body_register(
        &mut self,
        lane: Lane,
        distance_fill: &mut ConvolutionalError,
        num_decoded_bits: usize,
        decoded: &mut BitWriter,
        Ghost(run): Ghost<Run>,
    ) -> (next: Ghost<int>)
        requires
            register_fits(lane, ORDER as int),
            RATE <= 3,
            old(self).at_step(run, run.head(), 0),
            run.total == num_decoded_bits,
            channel_at(*old(distance_fill), run, run.head() as int),
            emitted(*old(decoded), run, 0),
        ensures
            final(self).at_step(run, (run.total - run.head()) as nat, next@),
            final(self).same_code(*old(self)),
            channel_at(*final(distance_fill), run, run.total - run.head()),
            emitted(*final(decoded), run, next@),
            final(decoded).buf@.len() == old(decoded).buf@.len(),
            final(final(decoded).buf)@ == final(old(decoded).buf)@,
    {
        let ghost begin = *self;
        let ghost first_writer = *decoded;
        let ghost mut start: int = 0;
        let ghost n = run.code.num_states();
        let ghost w = lane.width();
        let head: usize = (ORDER - 1) as usize;
        let end: usize = num_decoded_bits - head;
        let num_registers: usize = util::num_states_for_order(ORDER - 1) as usize / lane.lanes();
        proof {
            lemma_num_registers(lane, run.code.order);
            lemma_registers(lane, run.code.order, num_registers as int);
        }
        let mut prev: [Vector; 16] = load_registers(
            lane,
            num_registers,
            &self.error_table.previous_errors,
        );
        let mut t: usize = head;
        while t < end
            invariant
                head <= t <= end,
                head == run.head(),
                end == run.total - run.head(),
                register_fits(lane, ORDER as int),
                RATE <= 3,
                w == lane.width(),
                n == run.code.num_states(),
                num_registers * w == n,
                2 <= num_registers <= 16,
                self.wf(),
                run.valid(),
                run.code == self.code(),
                self.history_table.holds(run, t - run.head(), start),
                tracks(run, t as nat, flat(prev@, w, n), self.history_table.slack()),
                self.same_code(begin),
                channel_at(*distance_fill, run, t as int),
                emitted(*decoded, run, start),
                decoded.buf@.len() == first_writer.buf@.len(),
                final(decoded.buf)@ == final(first_writer.buf)@,
            decreases end - t,
        {
            let ghost rows = t - run.head();
            let dist: [u16; 8] = fill_next_distances_register(
                distance_fill,
                RATE,
                Ghost(run),
                Ghost(t as int),
            );
            prev = self.register_step(
                lane,
                num_registers,
                &prev,
                &dist,
                Ghost(run),
                Ghost(t as nat),
                Ghost(start),
            );
            let due: bool = self.history_table.advance_history(
                Ghost(run),
                Ghost(rows),
                Ghost(start),
            );
            if due {
                store_registers(lane, num_registers, &prev, &mut self.error_table.errors);
                let next: Ghost<int> = self.history_table.process_history_advance(
                    1,
                    &mut self.error_table.errors,
                    decoded,
                    Ghost(run),
                    Ghost(rows + 1),
                    Ghost(start),
                );
                prev = load_registers(lane, num_registers, &self.error_table.errors);
                proof {
                    start = next@;
                }
            }
            proof {
                lemma_holds_fits(self.history_table, run, rows + 1, start);
            }
            t = t + 1;
        }
        store_registers(lane, num_registers, &prev, &mut self.error_table.previous_errors);
        Ghost(start)
    }

    /// First phase: load the shift register up from 0, building the metrics of
    /// the states reachable so far. Nothing is decided here.
    fn decode_head(&mut self, distance_fill: &mut ConvolutionalError, Ghost(run): Ghost<Run>)
        requires
            old(self).wf(),
            run.valid(),
            run.code == old(self).code(),
            old(self).error_table.previous_errors@[0] == 0,
            channel_at(*old(distance_fill), run, 0),
        ensures
            final(self).wf(),
            final(self).same_code(*old(self)),
            final(self).history_table == old(self).history_table,
            tracks(run, run.head(), final(self).error_table.previous_errors@, 0),
            channel_at(*final(distance_fill), run, run.head() as int),
    {
        let ghost begin = *self;
        let ghost d = run.code.max_dist() as int;
        let head: u32 = ORDER - 1;
        let mut num_states: usize = 1;
        let mut i: u32 = 0;
        proof {
            lemma2_to64();
            lemma_pow2_16(run.head());
            lemma_metrics_fit(run, 0);
            assert(0 * run.code.rate == 0);
        }
        while i < head
            invariant
                i <= head,
                head == run.head(),
                self.wf(),
                run.valid(),
                run.code == self.code(),
                self.same_code(begin),
                self.history_table == begin.history_table,
                d == run.code.max_dist(),
                d <= 2040,
                num_states == pow2(i as nat),
                pow2(run.head()) <= 65536,
                channel_at(*distance_fill, run, i as int),
                forall|s: int|
                    0 <= s < num_states ==> {
                        &&& #[trigger] self.error_table.previous_errors@[s] == run.code.metric(
                            run.cost,
                            i as nat,
                            s,
                        )
                        &&& self.error_table.previous_errors@[s] <= i * d
                    },
            decreases head - i,
        {
            fill_next_distances(
                distance_fill,
                &mut self.distances,
                RATE,
                Ghost(run),
                Ghost(i as int),
            );
            let ghost before = *self;
            proof {
                lemma_pow2_unfold((i + 1) as nat);
                if i + 1 < head {
                    lemma_pow2_strictly_increases((i + 1) as nat, head as nat);
                }
                lemma_pow2_unfold(run.code.order);
                lemma_pow2_16(run.code.order);
            }
            let reachable: usize = 2 * num_states;
            let mut j: usize = 0;
            while j < reachable
                invariant
                    j <= reachable,
                    reachable == 2 * num_states,
                    reachable == pow2((i + 1) as nat),
                    reachable <= pow2(run.head()),
                    pow2(run.code.order) == 2 * pow2(run.head()),
                    i < head,
                    head == run.head(),
                    run.valid(),
                    before.wf(),
                    run.code == before.code(),
                    d == run.code.max_dist(),
                    d <= 2040,
                    is_distances(self.distances@, run, i as int),
                    *self == (SimdDecoder {
                        error_table: ConvolutionalErrorTable {
                            errors: self.error_table.errors,
                            ..before.error_table
                        },
                        ..before
                    }),
                    self.error_table.errors@.len() == run.code.num_states(),
                    forall|s: int|
                        0 <= s < num_states ==> {
                            &&& #[trigger] before.error_table.previous_errors@[s]
                                == run.code.metric(run.cost, i as nat, s)
                            &&& before.error_table.previous_errors@[s] <= i * d
                        },
                    forall|s: int|
                        0 <= s < j ==> {
                            &&& #[trigger] self.error_table.errors@[s] == run.code.metric(
                                run.cost,
                                (i + 1) as nat,
                                s,
                            )
                            &&& self.error_table.errors@[s] <= (i + 1) * d
                        },
                decreases reachable - j,
            {
                let output: u8 = self.poly_table[j];
                proof {
                    let out = run.code.output(j as int);
                    lemma_high_low(run.code, j as int);
                    run.code.lemma_dist(run.cost, i as int, out);
                    run.code.lemma_metric_step(run.cost, i as nat, j as int);
                    assert(before.error_table.previous_errors@[j as int / 2] <= i * d);
                    assert(i * d + d == (i + 1) * d) by (nonlinear_arith);
                    assert((i + 1) * d <= 15 * 2040) by (nonlinear_arith)
                        requires
                            i + 1 <= 15,
                            0 <= d <= 2040,
                    ;
                }
                self.error_table.errors[j] = self.distances[output as usize]
                    + self.error_table.previous_errors[j / 2];
                j = j + 1;
            }
            self.error_table.swap();
            num_states = reachable;
            i = i + 1;
        }
        proof {
            assert(tracks_from(
                run,
                run.head(),
                self.error_table.previous_errors@,
                0,
                0,
            )) by {
                assert forall|s: int| run.kept(run.head() - 1, s) implies {
                    &&& #[trigger] self.error_table.previous_errors@[s] + 0 == run.code.metric(
                        run.cost,
                        run.head(),
                        s,
                    )
                    &&& self.error_table.previous_errors@[s] <= (run.head() + 0) * d
                } by {}
            }
        }
    }

    /// Settles one tail step: only 0s shift in, so only multiples of `step` are
    /// possible.
    #[verifier::rlimit(40)]
    fn tail_step(&mut self, step: usize, Ghost(run): Ghost<Run>, Ghost(t): Ghost<nat>, Ghost(
        start,
    ): Ghost<int>)
        requires
            old(self).at_step(run, t, start),
            t < run.total,
            step == run.step_at(t as int),
            is_distances(old(self).distances@, run, t as int),
        ensures
            final(self).step_done(run, t, start, old(self).history_table.slack()),
            final(self).history_table.slack() == old(self).history_table.slack(),
            final(self).same_code(*old(self)),
    {
        let ghost rows = t - run.head();
        let ghost table = self.poly_table@;
        let ghost first = *self;
        let ghost slack = self.history_table.slack();
        let ghost d = run.code.max_dist() as int;
        let ghost base = choose|base: nat| #[trigger]
            tracks_from(run, t, self.error_table.previous_errors@, slack, base);
        let ghost prevs = self.error_table.previous_errors@;
        proof {
            lemma_holds_fits(self.history_table, run, rows, start);
            lemma_metrics_fit(run, slack);
            lemma_metrics_fit(run, slack + 1);
            lemma_pow2_16(run.code.order);
            lemma_pow2_unfold(run.code.order);
            lemma_pow2_unfold((run.code.order - 1) as nat);
            lemma_step_bound(run, t as int);
            vstd::arithmetic::div_mod::lemma_small_mod(0, step as nat);
        }
        let half: usize = util::num_states_for_order(ORDER - 2) as usize;
        let num_survivors: usize = 2 * half;
        let mut state: usize = 0;
        while state < num_survivors
            invariant
                state % step == 0,
                1 <= step <= 65536,
                step == run.step_at(t as int),
                num_survivors == 2 * half,
                half == pow2((run.code.order - 2) as nat),
                num_survivors == run.code.num_states(),
                num_survivors == pow2((run.code.order - 1) as nat),
                table.len() == 4 * half,
                half <= 16384,
                first.wf(),
                self.wf(),
                run.valid(),
                run.code == first.code(),
                t == run.head() + rows,
                0 <= rows < run.rows(),
                table == first.poly_table@,
                prevs == first.error_table.previous_errors@,
                d == run.code.max_dist(),
                slack == first.history_table.slack(),
                (run.head() + slack) * d + d == (run.head() + slack + 1) * d,
                (run.head() + slack + 1) * d <= 65535,
                is_distances(first.distances@, run, t as int),
                tracks_from(run, t, prevs, slack, base),
                *self == (SimdDecoder {
                    error_table: ConvolutionalErrorTable {
                        errors: self.error_table.errors,
                        ..first.error_table
                    },
                    history_table: self.history_table,
                    ..first
                }),
                self.history_table.holds(run, rows, start),
                self.history_table.slack() == slack,
                forall|s: int|
                    0 <= s < state && run.kept(t as int, s)
                        ==> #[trigger] self.history_table.recorded(run, rows, s),
                forall|s: int|
                    0 <= s < state && run.kept(t as int, s) ==> {
                        &&& #[trigger] self.error_table.errors@[s] + base == run.code.metric(
                            run.cost,
                            t + 1,
                            s,
                        )
                        &&& self.error_table.errors@[s] <= (run.head() + slack + 1) * d
                    },
            decreases num_survivors + step - state,
        {
            let low_output: u8 = self.poly_table[state];
            let high_output: u8 = self.poly_table[state + num_survivors];
            let low_prev: u16 = self.error_table.previous_errors[state / 2];
            let high_prev: u16 = self.error_table.previous_errors[state / 2 + half];
            proof {
                let s = state as int;
                assert(run.kept(t as int, s));
                lemma_kept_previous(run, t as int, s, 0);
                lemma_kept_previous(run, t as int, s, 1);
                lemma_high_low(run.code, s);
                assert(prevs[s / 2] + base == run.code.metric(run.cost, t, s / 2));
                assert(prevs[s / 2 + half] + base == run.code.metric(run.cost, t, s / 2 + half));
                run.code.lemma_dist(run.cost, t as int, run.code.output(s));
                run.code.lemma_dist(run.cost, t as int, run.code.output(s + num_survivors));
            }
            let low_error: u16 = self.distances[low_output as usize] + low_prev;
            let high_error: u16 = self.distances[high_output as usize] + high_prev;
            proof {
                lemma_select(run, t, base, state as int, low_error as int, high_error as int);
            }
            let (error, successor): (u16, bool) = if low_error <= high_error {
                (low_error, false)
            } else {
                (high_error, true)
            };
            self.error_table.errors[state] = error;
            self.history_table.record(state, successor, Ghost(run), Ghost(rows), Ghost(start));
            proof {
                lemma_holds_fits(self.history_table, run, rows, start);
                let (at, k) = (state as int, step as int);
                assert forall|s: int| at < s < at + k implies !(#[trigger] run.kept(
                    t as int,
                    s,
                )) by {
                    vstd::arithmetic::div_mod::lemma_fundamental_div_mod(at, k);
                    let q = at / k;
                    assert(k * q == q * k) by (nonlinear_arith);
                    vstd::arithmetic::div_mod::lemma_fundamental_div_mod_converse(
                        s,
                        k,
                        q,
                        s - at,
                    );
                }
                vstd::arithmetic::div_mod::lemma_mod_add_multiples_vanish(at, k);
            }
            state = state + step;
        }
        assert(tracks_from(run, t + 1, self.error_table.errors@, slack + 1, base));
    }

    /// Tail phase: decide the last bits while zeros flush the register.
    fn decode_tail(
        &mut self,
        distance_fill: &mut ConvolutionalError,
        num_decoded_bits: usize,
        decoded: &mut BitWriter,
        Ghost(run): Ghost<Run>,
        Ghost(done): Ghost<int>,
    ) -> (next: Ghost<int>)
        requires
            old(self).at_step(run, (run.total - run.head()) as nat, done),
            run.total == num_decoded_bits,
            channel_at(*old(distance_fill), run, run.total - run.head()),
            emitted(*old(decoded), run, done),
        ensures
            final(self).at_step(run, run.total, next@),
            final(self).same_code(*old(self)),
            emitted(*final(decoded), run, next@),
            final(decoded).buf@.len() == old(decoded).buf@.len(),
            final(final(decoded).buf)@ == final(old(decoded).buf)@,
    {
        let ghost begin = *self;
        let ghost first_writer = *decoded;
        let ghost mut start: int = done;
        let head: usize = (ORDER - 1) as usize;
        let mut t: usize = num_decoded_bits - head;
        let mut step: usize = 2;
        proof {
            lemma2_to64();
        }
        while t < num_decoded_bits
            invariant
                num_decoded_bits - head <= t <= num_decoded_bits,
                num_decoded_bits == run.total,
                head == run.head(),
                step == pow2((t + 1 - (run.total - run.head())) as nat),
                self.at_step(run, t as nat, start),
                self.same_code(begin),
                channel_at(*distance_fill, run, t as int),
                emitted(*decoded, run, start),
                decoded.buf@.len() == first_writer.buf@.len(),
                final(decoded.buf)@ == final(first_writer.buf)@,
            decreases num_decoded_bits - t,
        {
            fill_next_distances(
                distance_fill,
                &mut self.distances,
                RATE,
                Ghost(run),
                Ghost(t as int),
            );
            self.tail_step(step, Ghost(run), Ghost(t as nat), Ghost(start));
            let next: Ghost<int> = self.finish_step(
                step,
                decoded,
                Ghost(run),
                Ghost(t as nat),
                Ghost(start),
            );
            proof {
                lemma_step_bound(run, t as int);
                lemma_pow2_unfold((t + 2 - (run.total - run.head())) as nat);
                start = next@;
            }
            step = 2 * step;
            t = t + 1;
        }
        Ghost(start)
    }

    /// Picks a path by the code and the widths that may be used.
    fn select_path(&self) -> (path: ForcedPath)
        requires
            self.wf(),
        ensures
            path == preferred_path(RATE as int, ORDER as int, self.arch()),
            path_available(path, RATE as int, ORDER as int, self.arch()),
    {
        let arch: EnableArch = self.enable_arch;
        // at three bits per step or fewer the wide lookup has to beat the shuffle,
        // which only happens at large orders; above that the only alternative is the
        // group lookup, which it easily beats
        let perf_permute: bool = (ORDER >= 14 && RATE <= 3) || RATE >= 3;
        let permute_ok: bool = perf_permute && RATE <= 6 && ORDER >= 6 && arch.avx512;
        if RATE <= 3 {
            if 7 <= ORDER && ORDER <= 9 && arch.avx512 {
                ForcedPath::RegisterAvx512
            } else if 6 <= ORDER && ORDER <= 8 && arch.avx2 {
                ForcedPath::RegisterAvx2
            } else if 5 <= ORDER && ORDER <= 7 && arch.sse41 {
                ForcedPath::RegisterSse41
            } else if 5 <= ORDER && ORDER <= 7 {
                ForcedPath::Register128
            } else if permute_ok {
                ForcedPath::PermuteAvx512
            } else if ORDER >= 6 && arch.avx512 {
                ForcedPath::ShuffleAvx512
            } else if ORDER >= 5 && arch.avx2 {
                ForcedPath::ShuffleAvx2
            } else if arch.sse41 {
                ForcedPath::ShuffleSse41
            } else {
                ForcedPath::Shuffle128
            }
        } else if permute_ok {
            ForcedPath::PermuteAvx512
        } else if ORDER >= 6 && arch.avx512 {
            ForcedPath::OctLookupAvx512
        } else if ORDER >= 5 && arch.avx2 {
            ForcedPath::OctLookupAvx2
        } else if arch.sse41 {
            ForcedPath::OctLookupSse41
        } else {
            ForcedPath::OctLookup128
        }
    }

    /// Main phase: decide every bit except those of the tail, along the forced
    /// path or the one that suits the code.
    fn decode_body(
        &mut self,
        distance_fill: &mut ConvolutionalError,
        num_decoded_bits: usize,
        decoded: &mut BitWriter,
        Ghost(run): Ghost<Run>,
    ) -> (next: Ghost<int>)
        requires
            old(self).can_run(),
            old(self).at_step(run, run.head(), 0),
            run.total == num_decoded_bits,
            channel_at(*old(distance_fill), run, run.head() as int),
            emitted(*old(decoded), run, 0),
        ensures
            final(self).at_step(run, (run.total - run.head()) as nat, next@),
            final(self).same_code(*old(self)),
            channel_at(*final(distance_fill), run, run.total - run.head()),
            emitted(*final(decoded), run, next@),
            final(decoded).buf@.len() == old(decoded).buf@.len(),
            final(final(decoded).buf)@ == final(old(decoded).buf)@,
    {
        let path: ForcedPath = match self.force_path {
            Some(path) => path,
            None => self.select_path(),
        };
        self.dispatch_forced(path, distance_fill, num_decoded_bits, decoded, Ghost(run))
    }

    /// Runs the main phase along one path.
    fn dispatch_forced(
        &mut self,
        path: ForcedPath,
        distance_fill: &mut ConvolutionalError,
        num_decoded_bits: usize,
        decoded: &mut BitWriter,
        Ghost(run): Ghost<Run>,
    ) -> (next: Ghost<int>)
        requires
            path_available(path, RATE as int, ORDER as int, old(self).arch()),
            old(self).at_step(run, run.head(), 0),
            run.total == num_decoded_bits,
            channel_at(*old(distance_fill), run, run.head() as int),
            emitted(*old(decoded), run, 0),
        ensures
            final(self).at_step(run, (run.total - run.head()) as nat, next@),
            final(self).same_code(*old(self)),
            channel_at(*final(distance_fill), run, run.total - run.head()),
            emitted(*final(decoded), run, next@),
            final(decoded).buf@.len() == old(decoded).buf@.len(),
            final(final(decoded).buf)@ == final(old(decoded).buf)@,
    {
        let n: usize = num_decoded_bits;
        match path {
            ForcedPath::RegisterAvx512 => {
                self.decode_body_register(Lane::Lane512, distance_fill, n, decoded, Ghost(run))
            },
            ForcedPath::RegisterAvx2 => {
                self.decode_body_register(Lane::Lane256, distance_fill, n, decoded, Ghost(run))
            },
            ForcedPath::RegisterSse41 => {
                self.decode_body_register(Lane::Lane128, distance_fill, n, decoded, Ghost(run))
            },
            ForcedPath::Register128 => {
                self.decode_body_register(Lane::Lane128, distance_fill, n, decoded, Ghost(run))
            },
            ForcedPath::ShuffleAvx512 => {
                self.decode_body_shuffle(Lane::Lane512, distance_fill, n, decoded, Ghost(run))
            },
            ForcedPath::ShuffleAvx2 => {
                self.decode_body_shuffle(Lane::Lane256, distance_fill, n, decoded, Ghost(run))
            },
            ForcedPath::ShuffleSse41 => {
                self.decode_body_shuffle(Lane::Lane128, distance_fill, n, decoded, Ghost(run))
            },
            ForcedPath::Shuffle128 => {
                self.decode_body_shuffle(Lane::Lane128, distance_fill, n, decoded, Ghost(run))
            },
            ForcedPath::PermuteAvx512 => {
                self.decode_body_permute(Lane::Lane512, distance_fill, n, decoded, Ghost(run))
            },
            ForcedPath::OctLookupAvx512 => {
                self.decode_body_oct_lookup(Lane::Lane512, distance_fill, n, decoded, Ghost(run))
            },
            ForcedPath::OctLookupAvx2 => {
                self.decode_body_oct_lookup(Lane::Lane256, distance_fill, n, decoded, Ghost(run))
            },
            ForcedPath::OctLookupSse41 => {
                self.decode_body_oct_lookup(Lane::Lane128, distance_fill, n, decoded, Ghost(run))
            },
            ForcedPath::OctLookup128 => {
                self.decode_body_oct_lookup(Lane::Lane128, distance_fill, n, decoded, Ghost(run))
            },
        }
    }

    /// All three phases, and the last traceback.
    fn decode_all(
        &mut self,
        distance_fill: &mut ConvolutionalError,
        num_decoded_bits: usize,
        decoded: &mut BitWriter,
        Ghost(run): Ghost<Run>,
    )
        requires
            old(self).wf(),
            old(self).can_run(),
            run.valid(),
            run.code == old(self).code(),
            run.total == num_decoded_bits,
            channel_at(*old(distance_fill), run, 0),
            emitted(*old(decoded), run, 0),
        ensures
            final(self).wf(),
            final(self).same_code(*old(self)),
            final(decoded).wf(),
            final(decoded).bits() == Seq::new(run.rows(), |r: int| run.decoded_bit(r)),
            final(decoded).buf@.len() == old(decoded).buf@.len(),
            final(final(decoded).buf)@ == final(old(decoded).buf)@,
    {
        proof {
            lemma_pow2_pos(run.head());
        }
        self.error_table.reset();
        self.history_table.reset(Ghost(run.code));
        self.decode_head(distance_fill, Ghost(run));
        proof {
            lemma_reset_holds(self.history_table, run);
        }
        let done: Ghost<int> = self.decode_body(
            distance_fill,
            num_decoded_bits,
            decoded,
            Ghost(run),
        );
        let done: Ghost<int> = self.decode_tail(
            distance_fill,
            num_decoded_bits,
            decoded,
            Ghost(run),
            done,
        );
        self.history_table.flush(decoded, Ghost(run), done);
    }

    /// Decodes a block that reaches as far as `num_encoded_bits`, if its length
    /// fits the code and the payload fits `msg`.
    fn decode_block(
        &mut self,
        distance_fill: &mut ConvolutionalError,
        num_encoded_bits: usize,
        msg: &mut [u8],
    ) -> (res: Result<usize, DecodeError>)
        requires
            old(self).wf(),
            old(self).can_run(),
            old(distance_fill).ready(num_encoded_bits as int),
            old(distance_fill).pos() == 0,
            bounded_cost(old(distance_fill).cost()),
        ensures
            final(self).wf(),
            final(self).same_code(*old(self)),
            decode_result(
                old(self).code(),
                old(distance_fill).cost(),
                num_encoded_bits,
                true,
                old(msg)@,
                final(msg)@,
                res,
            ),
    {
        let ghost code = self.code();
        let ghost cost = distance_fill.cost();
        let num_decoded_bits: usize = match error::validate_encoded_len(
            num_encoded_bits,
            RATE,
            ORDER,
        ) {
            Ok(n) => n,
            Err(_) => {
                return Err(DecodeError::InvalidLength { num_encoded_bits, rate: RATE });
            },
        };
        let needed: usize = error::payload_len_bytes(num_encoded_bits, RATE, ORDER);
        let actual: usize = msg.len();
        if actual < needed {
            return Err(DecodeError::OutputTooSmall { needed, actual });
        }
        let ghost run = run_for(code, cost, num_encoded_bits as int);
        let ghost before = msg@;
        proof {
            let r = code.rate as int;
            vstd::arithmetic::div_mod::lemma_fundamental_div_mod(num_encoded_bits as int, r);
            assert(run.total * code.rate == num_encoded_bits) by (nonlinear_arith)
                requires
                    num_encoded_bits == r * (num_encoded_bits as int / r),
                    run.total == num_encoded_bits as int / r,
                    r == code.rate,
            ;
            assert(0 * code.rate == 0);
        }
        let rows: usize = num_decoded_bits - (ORDER - 1) as usize;
        let mut scratch: Vec<u8> = vec![0u8; rows / 8];
        let mut bit_writer = BitWriter::new(scratch.as_mut_slice());
        self.decode_all(distance_fill, num_decoded_bits, &mut bit_writer, Ghost(run));
        let ghost bits = bit_writer.bits();
        let ghost bytes = bit_writer.buf@;
        proof {
            assert(bits.len() == rows);
            assert(bits.len() == 8 * bit_writer.byte_index + bit_writer.current_byte_len);
            assert(bit_writer.byte_index == rows / 8);
            assert forall|i: int| 0 <= i < 8 * (rows / 8) implies #[trigger] bit_at(bytes, i)
                == run.decoded_bit(i) by {
                assert(bits[i] == bit_at(bytes, i));
            }
        }
        let mut i: usize = 0;
        while i < needed
            invariant
                i <= needed,
                needed <= rows / 8,
                scratch@ == bytes,
                bytes.len() == rows / 8,
                needed <= msg@.len(),
                msg@.len() == before.len(),
                forall|k: int| 0 <= k < i ==> #[trigger] msg@[k] == bytes[k],
                forall|k: int| i <= k < msg@.len() ==> #[trigger] msg@[k] == before[k],
            decreases needed - i,
        {
            msg[i] = scratch[i];
            i = i + 1;
        }
        proof {
            assert forall|k: int| 0 <= k < 8 * needed implies #[trigger] bit_at(msg@, k)
                == run.decoded_bit(k) by {
                assert(msg@[k / 8] == bytes[k / 8]);
                assert(bit_at(bytes, k) == run.decoded_bit(k));
            }
            assert(msg@.skip(needed as int) =~= before.skip(needed as int));
        }
        Ok(needed)
    }

    /// Decodes a hard-decision block. This behaves identically to the scalar
    /// [`Decoder::decode_hard`](super::super::Decoder::decode_hard). See it for
    /// the parameter and return conventions.
    pub fn decode_hard(&mut self, encoded: &[u8], num_encoded_bits: usize, msg: &mut [u8]) -> (res:
        Result<usize, DecodeError>)
        requires
            old(self).wf(),
            old(self).can_run(),
        ensures
            final(self).wf(),
            final(self).code() == old(self).code(),
            final(self).forced() == old(self).forced(),
            final(self).arch() == old(self).arch(),
            decode_result(
                old(self).code(),
                hard_cost(encoded@, None),
                num_encoded_bits,
                bytes_for(num_encoded_bits as int) <= encoded@.len(),
                old(msg)@,
                final(msg)@,
                res,
            ),
    {
        proof {
            lemma_costs_bounded(encoded@, None);
        }
        if num_encoded_bits == 0 || div_ceil_8(num_encoded_bits) > encoded.len() {
            // too short for any code
            assert(!valid_encoded_len(
                0,
                self.code().rate as int,
                self.code().order as int,
            )) by {
                assert(0int / (self.code().rate as int) == 0) by (nonlinear_arith)
                    requires
                        self.code().rate >= 1,
                ;
            }
            return Err(DecodeError::InvalidLength { num_encoded_bits, rate: RATE });
        }
        let mut distance_fill = ConvolutionalError::Hard {
            encoded: BitReader::new(encoded),
            erasure: None,
        };
        self.decode_block(&mut distance_fill, num_encoded_bits, msg)
    }

    /// Decodes a soft-decision block. This behaves identically to the scalar
    /// [`Decoder::decode_soft`](super::super::Decoder::decode_soft). See it for
    /// the soft-symbol convention and return conventions.
    pub fn decode_soft(&mut self, encoded: &[u8], msg: &mut [u8]) -> (res: Result<
        usize,
        DecodeError,
    >)
        requires
            old(self).wf(),
            old(self).can_run(),
        ensures
            final(self).wf(),
            final(self).code() == old(self).code(),
            final(self).forced() == old(self).forced(),
            final(self).arch() == old(self).arch(),
            decode_result(
                old(self).code(),
                soft_cost(encoded@, None),
                encoded@.len() as usize,
                true,
                old(msg)@,
                final(msg)@,
                res,
            ),
    {
        proof {
            lemma_costs_bounded(encoded@, None);
        }
        let mut distance_fill = ConvolutionalError::Soft { symbols: encoded, at: 0, erasure: None };
        self.decode_block(&mut distance_fill, encoded.len(), msg)
    }

    /// Decodes a hard-decision block in which some bits are known to be missing.
    /// This behaves identically to the scalar
    /// [`Decoder::decode_hard_with_erasure`](super::super::Decoder::decode_hard_with_erasure).
    pub fn decode_hard_with_erasure(
        &mut self,
        encoded: &[u8],
        num_encoded_bits: usize,
        erasure: &[u8],
        msg: &mut [u8],
    ) -> (res: Result<usize, DecodeError>)
        requires
            old(self).wf(),
            old(self).can_run(),
        ensures
            final(self).wf(),
            final(self).code() == old(self).code(),
            final(self).forced() == old(self).forced(),
            final(self).arch() == old(self).arch(),
            decode_result(
                old(self).code(),
                hard_cost(encoded@, Some(erasure@)),
                num_encoded_bits,
                bytes_for(num_encoded_bits as int) <= encoded@.len() && bytes_for(
                    num_encoded_bits as int,
                ) <= erasure@.len(),
                old(msg)@,
                final(msg)@,
                res,
            ),
    {
        let bytes: usize = div_ceil_8(num_encoded_bits);
        proof {
            lemma_costs_bounded(encoded@, Some(erasure@));
        }
        if num_encoded_bits == 0 || bytes > encoded.len() || bytes > erasure.len() {
            // too short for any code
            assert(!valid_encoded_len(
                0,
                self.code().rate as int,
                self.code().order as int,
            )) by {
                assert(0int / (self.code().rate as int) == 0) by (nonlinear_arith)
                    requires
                        self.code().rate >= 1,
                ;
            }
            return Err(DecodeError::InvalidLength { num_encoded_bits, rate: RATE });
        }
        let mut distance_fill = ConvolutionalError::Hard {
            encoded: BitReader::new(encoded),
            erasure: Some(BitReader::new(erasure)),
        };
        self.decode_block(&mut distance_fill, num_encoded_bits, msg)
    }

    /// Decodes a soft-decision block in which some symbols are known to be
    /// missing. This behaves identically to the scalar
    /// [`Decoder::decode_soft_with_erasure`](super::super::Decoder::decode_soft_with_erasure).
    pub fn decode_soft_with_erasure(
        &mut self,
        encoded: &[u8],
        erasure: &[u8],
        msg: &mut [u8],
    ) -> (res: Result<usize, DecodeError>)
        requires
            old(self).wf(),
            old(self).can_run(),
        ensures
            final(self).wf(),
            final(self).code() == old(self).code(),
            final(self).forced() == old(self).forced(),
            final(self).arch() == old(self).arch(),
            decode_result(
                old(self).code(),
                soft_cost(encoded@, Some(erasure@)),
                encoded@.len() as usize,
                bytes_for(encoded@.len() as int) <= erasure@.len(),
                old(msg)@,
                final(msg)@,
                res,
            ),
    {
        let num_encoded_bits: usize = encoded.len();
        proof {
            lemma_costs_bounded(encoded@, Some(erasure@));
        }
        if num_encoded_bits == 0 || div_ceil_8(num_encoded_bits) > erasure.len() {
            // too short for any code
            assert(!valid_encoded_len(
                0,
                self.code().rate as int,
                self.code().order as int,
            )) by {
                assert(0int / (self.code().rate as int) == 0) by (nonlinear_arith)
                    requires
                        self.code().rate >= 1,
                ;
            }
            return Err(DecodeError::InvalidLength { num_encoded_bits, rate: RATE });
        }
        let mut distance_fill = ConvolutionalError::Soft {
            symbols: encoded,
            at: 0,
            erasure: Some(BitReader::new(erasure)),
        };
        self.decode_block(&mut distance_fill, num_encoded_bits, msg)
    }
}

/// The metrics of `n` states out of registers of `width` lanes.
pub open spec fn flat(registers: Seq<Vector>, width: int, n: nat) -> Seq<u16> {
    Seq::new(n, |s: int| registers[s / width]@[s % width])
}

/// The states fill between 2 and 16 registers of this width.
pub open spec fn register_fits(lane: Lane, order: int) -> bool {
    match lane {
        Lane::Lane128 => 5 <= order <= 8,
        Lane::Lane256 => 6 <= order <= 9,
        Lane::Lane512 => 7 <= order <= 10,
    }
}

/// How many registers the states fill.
proof fn lemma_num_registers(lane: Lane, order: nat)
    requires
        register_fits(lane, order as int),
    ensures
        (pow2((order - 1) as nat) as int / lane.width()) * lane.width() == pow2(
            (order - 1) as nat,
        ),
{
    lemma2_to64();
    let n = pow2((order - 1) as nat) as int;
    match lane {
        Lane::Lane128 => {
            lemma_groups((order - 1) as nat, 3);
            assert((n / 8) * 8 == n);
        },
        Lane::Lane256 => {
            lemma_groups((order - 1) as nat, 4);
            assert((n / 16) * 16 == n);
        },
        Lane::Lane512 => {
            lemma_groups((order - 1) as nat, 5);
            assert((n / 32) * 32 == n);
        },
    }
}

/// The registers come in pairs.
proof fn lemma_registers(lane: Lane, order: nat, num: int)
    requires
        register_fits(lane, order as int),
        num * lane.width() == pow2((order - 1) as nat),
    ensures
        2 <= num <= 16,
        num % 2 == 0,
{
    lemma2_to64();
    let n = pow2((order - 1) as nat) as int;
    assert(order == 5 || order == 6 || order == 7 || order == 8 || order == 9 || order == 10);
    match lane {
        Lane::Lane128 => {
            assert(num * 8 == n);
        },
        Lane::Lane256 => {
            assert(num * 16 == n);
        },
        Lane::Lane512 => {
            assert(num * 32 == n);
        },
    }
}

/// The upper half of the table also comes in whole registers.
proof fn lemma_high_place(lane: Lane, at: int, n: int, order: nat)
    requires
        register_fits(lane, order as int),
        n == pow2((order - 1) as nat),
        0 <= at < n,
        at % lane.width() == 0,
    ensures
        (at + n) % lane.width() == 0,
        at + lane.width() <= n,
{
    lemma_room(lane, order, at);
}

/// The register and the lane of a state.
proof fn lemma_register_of(s: int, w: int, num: int)
    requires
        w > 0,
        0 <= s < num * w,
    ensures
        0 <= s / w < num,
        0 <= s % w < w,
        (s / w) * w + s % w == s,
{
    vstd::arithmetic::div_mod::lemma_fundamental_div_mod(s, w);
    let (q, r) = (s / w, s % w);
    assert(0 <= q < num && q * w + r == s) by (nonlinear_arith)
        requires
            s == w * q + r,
            0 <= r < w,
            0 <= s < num * w,
    ;
}

/// Loads all metrics into registers.
fn load_registers(lane: Lane, num: usize, src: &[u16]) -> (registers: [Vector; 16])
    requires
        num <= 16,
        num * lane.width() == src@.len(),
    ensures
        flat(registers@, lane.width(), src@.len()) == src@,
{
    let ghost w = lane.width();
    let lanes: usize = lane.lanes();
    let mut registers: [Vector; 16] = [[0u16; 32]; 16];
    let mut r: usize = 0;
    while r < num
        invariant
            r <= num <= 16,
            w == lane.width(),
            lanes == w,
            num * w == src@.len(),
            forall|i: int, k: int|
                0 <= i < r && 0 <= k < w ==> #[trigger] registers@[i]@[k] == src@[i * w + k],
        decreases num - r,
    {
        assert(0 <= r * w && r * w + w <= num * w) by (nonlinear_arith)
            requires
                r + 1 <= num,
                0 <= w,
        ;
        assert(r * lanes <= 512) by (nonlinear_arith)
            requires
                r <= 16,
                lanes <= 32,
        ;
        let ghost before = registers@;
        let v: Vector = lane.load(src, r * lanes);
        registers[r] = v;
        assert forall|i: int, k: int| 0 <= i < r + 1 && 0 <= k < w implies #[trigger] registers@[i]@[k]
            == src@[i * w + k] by {
            if i < r {
                assert(registers@[i] == before[i]);
                assert(before[i]@[k] == src@[i * w + k]);
            }
        }
        r = r + 1;
    }
    proof {
        let out = flat(registers@, w, src@.len());
        assert forall|s: int| 0 <= s < src@.len() implies #[trigger] out[s] == src@[s] by {
            lemma_register_of(s, w, num as int);
            assert(registers@[s / w]@[s % w] == src@[(s / w) * w + s % w]);
        }
        assert(out =~= src@);
    }
    registers
}

/// Stores all registers to memory.
fn store_registers(lane: Lane, num: usize, registers: &[Vector; 16], dst: &mut [u16])
    requires
        num <= 16,
        num * lane.width() == old(dst)@.len(),
    ensures
        final(dst)@ == flat(registers@, lane.width(), old(dst)@.len()),
{
    let ghost w = lane.width();
    let ghost len = dst@.len();
    let ghost wanted = flat(registers@, w, len);
    let lanes: usize = lane.lanes();
    let mut r: usize = 0;
    while r < num
        invariant
            r <= num <= 16,
            w == lane.width(),
            lanes == w,
            num * w == len,
            dst@.len() == len,
            wanted == flat(registers@, w, len),
            forall|s: int| 0 <= s < r * w ==> #[trigger] dst@[s] == wanted[s],
        decreases num - r,
    {
        assert(0 <= r * w && r * w + w <= num * w && r * w + w == (r + 1) * w) by (nonlinear_arith)
            requires
                r + 1 <= num,
                0 <= w,
        ;
        assert(r * lanes <= 512) by (nonlinear_arith)
            requires
                r <= 16,
                lanes <= 32,
        ;
        let ghost at = r * w;
        let ghost before = dst@;
        lane.store(dst, r * lanes, &registers[r]);
        assert forall|s: int| 0 <= s < (r + 1) * w implies #[trigger] dst@[s] == wanted[s] by {
            if s < at {
                assert(dst@[s] == before[s]);
            } else {
                vstd::arithmetic::div_mod::lemma_fundamental_div_mod_converse(
                    s,
                    w,
                    r as int,
                    s - at,
                );
            }
        }
        r = r + 1;
    }
    assert(dst@ =~= wanted);
}

/// Up to three encoded bits make eight outputs at most.
proof fn lemma_small_outputs(table: Seq<u8>, code: Trellis)
    requires
        code.rate <= 3,
        is_byte_table(table, code),
    ensures
        forall|s: int| 0 <= s < table.len() ==> #[trigger] table[s] < 8,
{
    lemma2_to64();
    if code.rate < 3 {
        lemma_pow2_strictly_increases(code.rate, 3);
    }
}

/// Costs fetched through the output table are the costs of the registers.
proof fn lemma_table_costs(
    v: Vector,
    lane: Lane,
    run: Run,
    t: nat,
    at: int,
    distances: Seq<u16>,
    table: Seq<u8>,
)
    requires
        is_distances(distances, run, t as int),
        is_byte_table(table, run.code),
        0 <= at,
        at + lane.width() <= table.len(),
        forall|k: int| 0 <= k < lane.width() ==> #[trigger] v@[k] == distances[table[at + k] as int],
    ensures
        vector_costs(v, lane, run, t, at),
{
    assert forall|k: int| 0 <= k < lane.width() implies #[trigger] v@[k] == run.code.dist(
        run.cost,
        t as int,
        run.code.output(at + k),
    ) by {
        assert(table[at + k] == run.code.output(at + k));
        assert(table[at + k] < pow2(run.code.rate));
    }
}

/// The cost of every register at step `t`.
pub open spec fn are_costs(costs: Seq<u16>, run: Run, t: nat) -> bool {
    &&& costs.len() == 2 * run.code.num_states()
    &&& forall|r: int|
        0 <= r < costs.len() ==> #[trigger] costs[r] == run.code.dist(
            run.cost,
            t as int,
            run.code.output(r),
        )
}

/// The costs of the outputs are those of the registers.
proof fn lemma_costs(run: Run, t: nat, distances: Seq<u16>, table: Seq<u8>)
    requires
        run.code.valid(),
        is_distances(distances, run, t as int),
        is_byte_table(table, run.code),
    ensures
        are_costs(costs_of(distances, table), run, t),
{
    lemma_pow2_unfold(run.code.order);
    let costs = costs_of(distances, table);
    assert forall|r: int| 0 <= r < costs.len() implies #[trigger] costs[r] == run.code.dist(
        run.cost,
        t as int,
        run.code.output(r),
    ) by {
        assert(table[r] == run.code.output(r));
        assert(table[r] < pow2(run.code.rate));
    }
}

/// The choice for state `s`, from the metrics of its two branches.
proof fn lemma_sums(
    run: Run,
    t: nat,
    base: nat,
    prevs: Seq<u16>,
    slack: int,
    costs: Seq<u16>,
    s: int,
)
    requires
        run.valid(),
        run.head() <= t < run.total - run.head(),
        0 <= slack,
        (run.head() + slack + 1) * run.code.max_dist() <= u16::MAX,
        prevs.len() == run.code.num_states(),
        tracks_from(run, t, prevs, slack, base),
        are_costs(costs, run, t),
        0 <= s < run.code.num_states(),
    ensures
        ({
            let low = low_sum(costs, prevs, s);
            let high = high_sum(costs, prevs, s);
            &&& (if low <= high {
                low
            } else {
                high
            }) + base == run.code.metric(run.cost, t + 1, s)
            &&& low <= (run.head() + slack + 1) * run.code.max_dist()
            &&& high <= (run.head() + slack + 1) * run.code.max_dist()
            &&& took_high(run, t as int, s) == (low > high)
        }),
{
    let n = run.code.num_states() as int;
    lemma_pow2_unfold((run.code.order - 1) as nat);
    let (p, q) = (s / 2, s / 2 + n / 2);
    lemma_high_low(run.code, s);
    assert(run.kept(t - 1, p) && run.kept(t - 1, q));
    assert(prevs[p] + base == run.code.metric(run.cost, t, p));
    assert(prevs[q] + base == run.code.metric(run.cost, t, q));
    run.code.lemma_dist(run.cost, t as int, run.code.output(s));
    run.code.lemma_dist(run.cost, t as int, run.code.output(s + n));
    assert(costs[s] == run.code.dist(run.cost, t as int, run.code.output(s)));
    assert(costs[s + n] == run.code.dist(run.cost, t as int, run.code.output(s + n)));
    let (h, d) = (run.head() + slack, run.code.max_dist() as int);
    assert((h + 1) * d == h * d + d) by (nonlinear_arith);
    lemma_select(run, t, base, s, costs[s] + prevs[p], costs[s + n] + prevs[q]);
}

/// No branch overflows.
proof fn lemma_all_fit(run: Run, t: nat, base: nat, prevs: Seq<u16>, slack: int, costs: Seq<u16>)
    requires
        run.valid(),
        run.head() <= t < run.total - run.head(),
        0 <= slack < super::super::history::renorm_interval(run.code),
        prevs.len() == run.code.num_states(),
        tracks_from(run, t, prevs, slack, base),
        are_costs(costs, run, t),
    ensures
        sums_fit(costs, prevs),
{
    lemma_metrics_fit(run, slack + 1);
    let n = run.code.num_states() as int;
    let d = run.code.max_dist() as int;
    lemma_pow2_unfold((run.code.order - 1) as nat);
    assert(run.head() * d + d <= 0x7fff) by (nonlinear_arith)
        requires
            0 <= run.head() <= 15,
            0 <= d <= 2040,
    ;
    assert forall|s: int| 0 <= s < prevs.len() implies {
        let high = high_sum(costs, prevs, s);
        &&& #[trigger] low_sum(costs, prevs, s) <= u16::MAX
        &&& high <= u16::MAX
        &&& low_sum(costs, prevs, s) <= high + 0x7fff
        &&& high <= low_sum(costs, prevs, s) + 0x7fff
    } by {
        lemma_sums(run, t, base, prevs, slack, costs, s);
        let (p, q) = (s / 2, s / 2 + n / 2);
        assert(run.kept(t - 1, p) && run.kept(t - 1, q));
        assert(prevs[p] + base == run.code.metric(run.cost, t, p));
        assert(prevs[q] + base == run.code.metric(run.cost, t, q));
        run.code.lemma_spread(run.cost, t, p, q);
        run.code.lemma_spread(run.cost, t, q, p);
        run.code.lemma_dist(run.cost, t as int, run.code.output(s));
        run.code.lemma_dist(run.cost, t as int, run.code.output(s + n));
        assert(costs[s] == run.code.dist(run.cost, t as int, run.code.output(s)));
        assert(costs[s + n] == run.code.dist(run.cost, t as int, run.code.output(s + n)));
    }
}

/// The states come in whole groups.
proof fn lemma_groups_fit(lane: Lane, order: nat)
    requires
        lane_fits(lane, order as int),
    ensures
        pow2((order - 1) as nat) as int % group_of(lane) == 0,
        pow2((order - 1) as nat) % 8 == 0,
        pow2((order - 1) as nat) < 32 || pow2((order - 1) as nat) % 32 == 0,
{
    lemma2_to64();
    lemma_groups((order - 1) as nat, 3);
    if order >= 6 {
        lemma_groups((order - 1) as nat, 5);
    } else {
        lemma_pow2_strictly_increases((order - 1) as nat, 5);
    }
    if lane != Lane::Lane128 {
        lemma_groups((order - 1) as nat, 4);
    }
}

proof fn lemma_dot_fours(i: nat, j: nat, p: nat)
    requires
        j < 4,
    ensures
        dot(4 * i + j, p) == (dot(4 * i, p) != dot(j, p)),
{
    if p != 0 {
        let b = j / 2;
        assert((4 * i + j) / 2 == 2 * i + b && (4 * i) / 2 == 2 * i);
        assert((2 * i + b) / 2 == i && (2 * i) / 2 == i && b / 2 == 0);
        assert(dot(4 * i + j, p) == ((j % 2 == 1 && p % 2 == 1) != dot(2 * i + b, p / 2)));
        assert(dot(4 * i, p) == dot(2 * i, p / 2));
        assert(dot(j, p) == ((j % 2 == 1 && p % 2 == 1) != dot(b, p / 2)));
        let q = p / 2;
        if q != 0 {
            assert(dot(2 * i + b, q) == ((b % 2 == 1 && q % 2 == 1) != dot(i, q / 2)));
            assert(dot(2 * i, q) == dot(i, q / 2));
            assert(dot(b, q) == ((b % 2 == 1 && q % 2 == 1) != dot(0, q / 2)));
            lemma_dot_zero(q / 2);
        }
    }
}

/// A register's output is the exclusive-or of those of its parts.
proof fn lemma_dot_parts(i: nat, j: nat, p: nat)
    requires
        j < 8,
    ensures
        dot(8 * i + j, p) == (dot(8 * i, p) != dot(j, p)),
{
    if p != 0 {
        let b = j / 2;
        assert((8 * i + j) / 2 == 4 * i + b && (8 * i) / 2 == 4 * i);
        lemma_dot_fours(i, b, p / 2);
    }
}

proof fn lemma_output_parts(polys: Seq<u16>, i: nat, j: nat, n: nat)
    requires
        n <= 8,
        j < 8,
    ensures
        output_upto(polys, 8 * i + j, n) < pow2(n) <= 256,
        output_upto(polys, 8 * i, n) < pow2(n),
        output_upto(polys, j, n) < pow2(n),
        output_upto(polys, 8 * i + j, n) == (output_upto(polys, 8 * i, n) as u16) ^ (output_upto(
            polys,
            j,
            n,
        ) as u16),
    decreases n,
{
    lemma2_to64();
    if n < 8 {
        lemma_pow2_strictly_increases(n, 8);
    }
    if n == 0 {
        assert(0u16 ^ 0u16 == 0u16) by (bit_vector);
    } else {
        let m = (n - 1) as nat;
        lemma_output_parts(polys, i, j, m);
        lemma_dot_parts(i, j, polys[m as int] as nat);
        lemma_pow2_unfold(n);
        vstd::bits::lemma_u16_shl_is_mul(1, m as u16);
        let (a, b) = (output_upto(polys, 8 * i, m) as u16, output_upto(polys, j, m) as u16);
        lemma_xor_top(a, b, m as u16);
    }
}

/// The outputs come in eights.
proof fn lemma_in_eights(table: Seq<u8>, code: Trellis)
    requires
        code.valid(),
        code.order >= 4,
        is_byte_table(table, code),
    ensures
        in_eights(table),
{
    lemma2_to64();
    lemma_groups(code.order, 3);
    assert forall|i: int, j: int| 0 <= 8 * i < table.len() && 0 <= j < 8 implies #[trigger] eight_output(
        table,
        i,
        j,
    ) by {
        lemma_output_parts(code.polys, i as nat, j as nat, code.rate);
        assert(table[8 * i + j] == code.output(8 * i + j));
        assert(table[8 * i] == code.output(8 * i));
        assert(table[j] == code.output(j));
    }
}

} // verus!
