//! Viterbi decoder.

use super::bit::{bit_at, BitReader, BitWriter};
use super::channel::{hard_cost, lemma_costs_bounded, soft_cost, ConvolutionalError};
use super::encoder::encoded_len;
use super::error;
use super::error::{bytes_for, div_ceil_8, payload_len, valid_encoded_len, DecodeError};
use super::history::{
    lemma_holds_fits, lemma_metrics_fit, lemma_reset_holds, lemma_step_bound, took_high, tracks,
    tracks_from, ConvolutionalHistoryTable,
};
use super::simd::lane::{add_pred, store_eight, Eight};
use super::tables::{
    is_distances, is_poly_table, ConvolutionalErrorTable, ConvolutionalPairTable,
};
use super::trellis::{bounded_cost, Trellis};
use super::util;
use super::util::lemma_pow2_16;
use super::viterbi::{lemma_kept_previous, Run};
use vstd::arithmetic::power2::{
    lemma2_to64, lemma_pow2_pos, lemma_pow2_strictly_increases, lemma_pow2_unfold, pow2,
};
use vstd::prelude::*;
use vstd::slice::slice_subrange;

verus! {

/// The decode of a block of `num_encoded_bits` bits under the given costs.
pub open spec fn run_for(
    code: Trellis,
    cost: spec_fn(int, bool) -> nat,
    num_encoded_bits: int,
) -> Run {
    Run { code, cost, total: (num_encoded_bits / (code.rate as int)) as nat }
}

/// `after` is `before` with the decoded payload written over its start.
pub open spec fn payload_written(run: Run, len: int, before: Seq<u8>, after: Seq<u8>) -> bool {
    &&& after.len() == before.len()
    &&& 0 <= len <= after.len()
    &&& forall|i: int| 0 <= i < 8 * len ==> #[trigger] bit_at(after, i) == run.decoded_bit(i)
    &&& after.skip(len) == before.skip(len)
}

/// What a decode returns and writes, where `covered` says whether the data that
/// was passed reaches as far as the stated length.
pub open spec fn decode_result(
    code: Trellis,
    cost: spec_fn(int, bool) -> nat,
    num_encoded_bits: usize,
    covered: bool,
    before: Seq<u8>,
    after: Seq<u8>,
    res: Result<usize, DecodeError>,
) -> bool {
    decoded_bytes(
        code,
        cost,
        num_encoded_bits,
        covered,
        payload_len(num_encoded_bits as int, code.rate as int, code.order as int),
        before,
        after,
        res,
    )
}

/// The whole bytes that a block yields, flush bits and all, as far as `room` goes.
pub open spec fn yield_len(num_encoded_bits: int, rate: int, order: int, room: int) -> int {
    let bytes = (num_encoded_bits / rate - (order - 1)) / 8;
    if bytes <= room {
        bytes
    } else {
        room
    }
}

/// The same for a decode that writes `len` bytes where it succeeds.
pub open spec fn decoded_bytes(
    code: Trellis,
    cost: spec_fn(int, bool) -> nat,
    num_encoded_bits: usize,
    covered: bool,
    len: int,
    before: Seq<u8>,
    after: Seq<u8>,
    res: Result<usize, DecodeError>,
) -> bool {
    let needed = payload_len(num_encoded_bits as int, code.rate as int, code.order as int);
    if !valid_encoded_len(num_encoded_bits as int, code.rate as int, code.order as int)
        || !covered {
        &&& res matches Err(DecodeError::InvalidLength { num_encoded_bits: bits, rate })
        &&& bits == num_encoded_bits
        &&& rate == code.rate
        &&& after == before
    } else if before.len() < needed {
        &&& res matches Err(DecodeError::OutputTooSmall { needed: n, actual })
        &&& n == needed
        &&& actual == before.len()
        &&& after == before
    } else {
        &&& res matches Ok(n)
        &&& n == len
        &&& payload_written(run_for(code, cost, num_encoded_bits as int), len, before, after)
    }
}

/// One state's decision, from stored metrics that share a base with the true
/// ones.
pub proof fn lemma_select(run: Run, t: nat, base: nat, s: int, low: int, high: int)
    requires
        run.valid(),
        t >= run.head(),
        low + base == run.code.branch(run.cost, t, s, 0),
        high + base == run.code.branch(run.cost, t, s, 1),
    ensures
        low <= high ==> low + base == run.code.metric(run.cost, t + 1, s) && run.code.choice(
            run.cost,
            t,
            s,
        ) == 0,
        low > high ==> high + base == run.code.metric(run.cost, t + 1, s) && run.code.choice(
            run.cost,
            t,
            s,
        ) == 1,
{
    run.code.lemma_metric_step(run.cost, t, s);
}

/// A Viterbi decoder for a convolutional code, with hard- and soft-decision
/// decoding.
///
/// Construct it with the same `(rate, order, polynomials)` used to encode. The
/// decoder tolerates some corrupted bits and recovers the original message, up
/// to the error-correcting power of the code.
///
/// It cannot tell you when *too many* bits were corrupted. Past the code's
/// correction limit it still writes a message, just not the right one. If you
/// need to know whether decoding succeeded, wrap the payload in a checksum or CRC
/// and verify it yourself.
#[derive(Debug, Clone)]
pub struct Decoder {
    rate: u32,
    order: u32,
    polys: Vec<u16>,
    poly_table: Vec<u16>,
    pair_table: ConvolutionalPairTable,
    history_table: ConvolutionalHistoryTable,
    error_table: ConvolutionalErrorTable,
    distances: Vec<u16>,
    sums: Vec<u16>,
}

impl Decoder {
    /// The code that this decoder decodes.
    pub closed spec fn code(self) -> Trellis {
        Trellis { rate: self.rate as nat, order: self.order as nat, polys: self.polys@ }
    }

    /// The tables belong to the code.
    pub closed spec fn wf(self) -> bool {
        let code = self.code();
        &&& code.valid()
        &&& code.order >= 4
        &&& is_poly_table(self.poly_table@, code)
        &&& self.pair_table.wf(self.poly_table@, code.rate)
        &&& self.history_table.fits(code)
        &&& self.error_table.errors@.len() == code.num_states()
        &&& self.error_table.previous_errors@.len() == code.num_states()
        &&& self.distances@.len() == pow2(code.rate)
        &&& self.sums@.len() == 2 * code.num_states()
    }

    /// Everything but the working state is as it was.
    closed spec fn same_code(self, other: Decoder) -> bool {
        &&& self.rate == other.rate
        &&& self.order == other.order
        &&& self.polys == other.polys
        &&& self.poly_table == other.poly_table
    }

    /// Creates a decoder for the convolutional code with the given parameters.
    ///
    /// These must match the encoder. `polys` contains exactly `rate` generator
    /// polynomials.
    pub fn new(rate: u32, order: u32, polys: &[u16]) -> (decoder: Decoder)
        requires
            1 <= rate <= 8,
            4 <= order <= 16,
            polys@.len() == rate,
        ensures
            decoder.wf(),
            decoder.code() == (Trellis { rate: rate as nat, order: order as nat, polys: polys@ }),
    {
        let ghost code = Trellis { rate: rate as nat, order: order as nat, polys: polys@ };
        proof {
            lemma_pow2_16((order - 1) as nat);
            lemma2_to64();
            lemma_pow2_strictly_increases((order - 1) as nat, 16);
            lemma_pow2_unfold(order as nat);
        }
        let poly_table: Vec<u16> = util::conv_poly_table(rate, order, polys);
        let max_error: u32 = rate * 255;
        let renorm: u32 = 32767 / max_error;
        let num_states: u32 = util::num_states_for_order(order - 1);
        let highbit: u16 = num_states as u16;
        let group: u32 = util::traceback_group_length(order) as u32;
        let pair_table = ConvolutionalPairTable::new(rate, order, &poly_table);
        assert((5 * order + group) * num_states <= 900 * 32768) by (nonlinear_arith)
            requires
                0 <= 5 * order + group <= 900,
                0 <= num_states <= 32768,
        ;
        let history_table = ConvolutionalHistoryTable::new(
            5 * order,
            group,
            renorm,
            num_states,
            highbit,
        );
        let outputs: u32 = util::num_states_for_order(rate);
        Decoder {
            rate,
            order,
            polys: vstd::slice::slice_to_vec(polys),
            poly_table,
            pair_table,
            history_table,
            error_table: ConvolutionalErrorTable::new(num_states as usize),
            distances: vec![0u16; outputs as usize],
            sums: vec![0u16; 2 * num_states as usize],
        }
    }

    /// Reads one step's costs.
    fn next_distances(&mut self, distance_fill: &mut ConvolutionalError, Ghost(run): Ghost<
        Run,
    >, Ghost(t): Ghost<int>)
        requires
            old(self).wf(),
            run.code == old(self).code(),
            old(distance_fill).ready(run.num_bits()),
            old(distance_fill).pos() == t * run.code.rate,
            old(distance_fill).cost() == run.cost,
            0 <= t < run.total,
        ensures
            *final(self) == (Decoder { distances: final(self).distances, ..*old(self) }),
            final(self).wf(),
            is_distances(final(self).distances@, run, t),
            final(distance_fill).ready(run.num_bits()),
            final(distance_fill).pos() == (t + 1) * run.code.rate,
            final(distance_fill).cost() == run.cost,
    {
        let ghost rate = run.code.rate as int;
        proof {
            assert((t + 1) * rate == t * rate + rate) by (nonlinear_arith);
            assert(t * rate + rate <= run.total * rate) by (nonlinear_arith)
                requires
                    t < run.total,
                    rate >= 1,
            ;
        }
        distance_fill.fill_next_distances(
            &mut self.distances,
            self.rate,
            Ghost(run.num_bits()),
        );
    }

    /// First phase: load the shift register up from 0, building the metrics of
    /// the states reachable so far. Nothing is decided here.
    fn decode_head(&mut self, distance_fill: &mut ConvolutionalError, Ghost(run): Ghost<Run>)
        requires
            old(self).wf(),
            run.valid(),
            run.code == old(self).code(),
            old(self).error_table.previous_errors@[0] == 0,
            old(distance_fill).ready(run.num_bits()),
            old(distance_fill).pos() == 0,
            old(distance_fill).cost() == run.cost,
        ensures
            final(self).wf(),
            final(self).same_code(*old(self)),
            final(self).history_table == old(self).history_table,
            tracks(run, run.head(), final(self).error_table.previous_errors@, 0),
            final(distance_fill).ready(run.num_bits()),
            final(distance_fill).pos() == run.head() * run.code.rate,
            final(distance_fill).cost() == run.cost,
    {
        let ghost start = *self;
        let ghost d = run.code.max_dist() as int;
        let head: u32 = self.order - 1;
        let mut num_states: usize = 1;
        let mut i: u32 = 0;
        proof {
            lemma2_to64();
            lemma_pow2_16(run.head());
            lemma_metrics_fit(run, 0);
            assert(0 * run.code.rate == 0);
        }
        while i < head
            invariant
                i <= head,
                head == run.head(),
                start.wf(),
                self.wf(),
                run.valid(),
                run.code == self.code(),
                self.same_code(start),
                self.history_table == start.history_table,
                d == run.code.max_dist(),
                d <= 2040,
                num_states == pow2(i as nat),
                pow2(run.head()) <= 65536,
                distance_fill.ready(run.num_bits()),
                distance_fill.pos() == i * run.code.rate,
                distance_fill.cost() == run.cost,
                forall|s: int|
                    0 <= s < num_states ==> {
                        &&& #[trigger] self.error_table.previous_errors@[s] == run.code.metric(
                            run.cost,
                            i as nat,
                            s,
                        )
                        &&& self.error_table.previous_errors@[s] <= i * d
                    },
            decreases head - i,
        {
            self.next_distances(distance_fill, Ghost(run), Ghost(i as int));
            let ghost before = *self;
            proof {
                lemma_pow2_unfold((i + 1) as nat);
                if i + 1 < head {
                    lemma_pow2_strictly_increases((i + 1) as nat, head as nat);
                }
                lemma_pow2_unfold(run.code.order);
                lemma_pow2_16(run.code.order);
            }
            let reachable: usize = 2 * num_states;
            let mut j: usize = 0;
            while j < reachable
                invariant
                    j <= reachable,
                    reachable == 2 * num_states,
                    reachable == pow2((i + 1) as nat),
                    reachable <= pow2(run.head()),
                    pow2(run.code.order) == 2 * pow2(run.head()),
                    i < head,
                    head == run.head(),
                    run.valid(),
                    before.wf(),
                    run.code == before.code(),
                    d == run.code.max_dist(),
                    d <= 2040,
                    is_distances(self.distances@, run, i as int),
                    *self == (Decoder {
                        error_table: ConvolutionalErrorTable {
                            errors: self.error_table.errors,
                            ..before.error_table
                        },
                        ..before
                    }),
                    self.error_table.errors@.len() == run.code.num_states(),
                    forall|s: int|
                        0 <= s < num_states ==> {
                            &&& #[trigger] before.error_table.previous_errors@[s]
                                == run.code.metric(run.cost, i as nat, s)
                            &&& before.error_table.previous_errors@[s] <= i * d
                        },
                    forall|s: int|
                        0 <= s < j ==> {
                            &&& #[trigger] self.error_table.errors@[s] == run.code.metric(
                                run.cost,
                                (i + 1) as nat,
                                s,
                            )
                            &&& self.error_table.errors@[s] <= (i + 1) * d
                        },
                decreases reachable - j,
            {
                let output: u16 = self.poly_table[j];
                proof {
                    let out = run.code.output(j as int);
                    assert(run.code.register(j as int, 0) == j) by (nonlinear_arith)
                        requires
                            run.code.register(j as int, 0) == j + 0 * pow2(
                                (run.code.order - 1) as nat,
                            ),
                    ;
                    assert(run.code.previous(j as int, 0) == j / 2) by (nonlinear_arith)
                        requires
                            run.code.previous(j as int, 0) == j as int / 2 + 0 * pow2(
                                (run.code.order - 2) as nat,
                            ),
                    ;
                    run.code.lemma_dist(run.cost, i as int, out);
                    run.code.lemma_metric_step(run.cost, i as nat, j as int);
                    assert(before.error_table.previous_errors@[j as int / 2] <= i * d);
                    assert(i * d + d == (i + 1) * d) by (nonlinear_arith);
                    assert((i + 1) * d <= 15 * 2040) by (nonlinear_arith)
                        requires
                            i + 1 <= 15,
                            0 <= d <= 2040,
                    ;
                }
                self.error_table.errors[j] = self.distances[output as usize]
                    + self.error_table.previous_errors[j / 2];
                j = j + 1;
            }
            self.error_table.swap();
            num_states = reachable;
            i = i + 1;
        }
        proof {
            assert(tracks_from(
                run,
                run.head(),
                self.error_table.previous_errors@,
                0,
                0,
            )) by {
                assert forall|s: int| run.kept(run.head() - 1, s) implies {
                    &&& #[trigger] self.error_table.previous_errors@[s] + 0 == run.code.metric(
                        run.cost,
                        run.head(),
                        s,
                    )
                    &&& self.error_table.previous_errors@[s] <= (run.head() + 0) * d
                } by {}
            }
        }
    }

    /// Fills the errors and decisions of one body step.
    ///
    /// The two registers of a pair differ in their newest bit and share a
    /// predecessor; the pairs `prev` and `prev + half` differ in their oldest bit
    /// and share their successors. So each pair of pairs settles two states.
    #[verifier::rlimit(40)]
    fn body_step(&mut self, Ghost(run): Ghost<Run>, Ghost(rows): Ghost<int>, Ghost(start): Ghost<
        int,
    >)
        requires
            old(self).wf(),
            run.valid(),
            run.code == old(self).code(),
            0 <= rows,
            run.head() + rows < run.total - run.head(),
            is_distances(old(self).distances@, run, run.head() + rows),
            old(self).history_table.holds(run, rows, start),
            tracks(
                run,
                (run.head() + rows) as nat,
                old(self).error_table.previous_errors@,
                old(self).history_table.slack(),
            ),
        ensures
            final(self).wf(),
            final(self).same_code(*old(self)),
            final(self).history_table.holds(run, rows, start),
            final(self).history_table.slack() == old(self).history_table.slack(),
            forall|s: int|
                run.kept(run.head() + rows, s) ==> #[trigger] final(self).history_table.recorded(
                    run,
                    rows,
                    s,
                ),
            tracks(
                run,
                (run.head() + rows + 1) as nat,
                final(self).error_table.errors@,
                old(self).history_table.slack() + 1,
            ),
    {
        let ghost t = (run.head() + rows) as nat;
        let ghost table = self.poly_table@;
        let ghost rate = run.code.rate;
        proof {
            self.pair_table.lemma_reads(table, rate, self.distances@.len() as int);
        }
        self.pair_table.distances(&self.distances);
        proof {
            self.pair_table.lemma_halves(table, self.distances@);
        }
        let ghost first = *self;
        let ghost slack = self.history_table.slack();
        let ghost d = run.code.max_dist() as int;
        let ghost base = choose|base: nat| #[trigger]
            tracks_from(run, t, self.error_table.previous_errors@, slack, base);
        let ghost prevs = self.error_table.previous_errors@;
        proof {
            lemma_holds_fits(self.history_table, run, rows, start);
            lemma_metrics_fit(run, slack);
            lemma_metrics_fit(run, slack + 1);
            lemma_pow2_16(run.code.order);
            lemma_pow2_unfold(run.code.order);
            lemma_pow2_unfold((run.code.order - 1) as nat);
            lemma_pow2_unfold((run.code.order - 2) as nat);
            lemma_pow2_unfold((run.code.order - 3) as nat);
        }
        let half: usize = util::num_states_for_order(self.order - 2) as usize;
        assert forall|p: int| 0 <= p < 2 * half implies {
            &&& #[trigger] self.pair_table.even(p) + prevs[p] <= 65535
            &&& self.pair_table.odd(p) + prevs[p] <= 65535
        } by {
            lemma_pair_costs(
                run,
                t,
                base,
                prevs,
                slack,
                self.pair_table,
                table,
                self.distances@,
                p,
            );
        }
        add_branches(
            &self.pair_table,
            &self.error_table.previous_errors,
            &mut self.sums,
            Ghost(table),
            Ghost(rate),
        );
        let (low, high) = self.sums.as_slice().split_at(2 * half);
        keep_lesser(low, high, &mut self.error_table.errors);
        proof {
            assert forall|s: int| 0 <= s < 2 * half implies {
                &&& #[trigger] self.error_table.errors@[s] + base == run.code.metric(
                    run.cost,
                    t + 1,
                    s,
                )
                &&& self.error_table.errors@[s] <= (run.head() + slack + 1) * d
            } by {
                lemma_settled(
                    run,
                    t,
                    base,
                    prevs,
                    slack,
                    self.pair_table,
                    table,
                    self.distances@,
                    half as int,
                    s,
                );
            }
            assert forall|s: int| 0 <= s < 2 * half implies (#[trigger] low@[s] > high@[s])
                == took_high(run, run.head() + rows, 0 + s) by {
                lemma_settled(
                    run,
                    t,
                    base,
                    prevs,
                    slack,
                    self.pair_table,
                    table,
                    self.distances@,
                    half as int,
                    s,
                );
            }
        }
        self.history_table.record_greater(
            0,
            low,
            high,
            Ghost(run),
            Ghost(rows),
            Ghost(start),
        );
        proof {
            lemma_holds_fits(self.history_table, run, rows, start);
        }
        assert(tracks_from(run, t + 1, self.error_table.errors@, slack + 1, base));
    }

    /// Main phase: decide every bit except those of the tail.
    fn decode_body(
        &mut self,
        distance_fill: &mut ConvolutionalError,
        num_decoded_bits: usize,
        decoded: &mut BitWriter,
        Ghost(run): Ghost<Run>,
    ) -> (next: Ghost<int>)
        requires
            old(self).wf(),
            run.valid(),
            run.code == old(self).code(),
            run.total == num_decoded_bits,
            old(self).history_table.holds(run, 0, 0),
            tracks(
                run,
                run.head(),
                old(self).error_table.previous_errors@,
                old(self).history_table.slack(),
            ),
            old(distance_fill).ready(run.num_bits()),
            old(distance_fill).pos() == run.head() * run.code.rate,
            old(distance_fill).cost() == run.cost,
            old(decoded).wf(),
            old(decoded).bits().len() == 0,
            run.rows() < 8 * old(decoded).buf@.len() + 8,
        ensures
            final(self).wf(),
            final(self).same_code(*old(self)),
            final(self).history_table.holds(run, run.rows() - run.head(), next@),
            tracks(
                run,
                (run.total - run.head()) as nat,
                final(self).error_table.previous_errors@,
                final(self).history_table.slack(),
            ),
            final(distance_fill).ready(run.num_bits()),
            final(distance_fill).pos() == (run.total - run.head()) * run.code.rate,
            final(distance_fill).cost() == run.cost,
            final(decoded).wf(),
            final(decoded).bits().len() == next@,
            forall|r: int|
                0 <= r < next@ ==> #[trigger] final(decoded).bits()[r] == run.decoded_bit(r),
            final(decoded).buf@.len() == old(decoded).buf@.len(),
            final(final(decoded).buf)@ == final(old(decoded).buf)@,
    {
        let ghost begin = *self;
        let ghost first_writer = *decoded;
        let ghost mut start: int = 0;
        let ghost mut rows: int = 0;
        let head: usize = (self.order - 1) as usize;
        let end: usize = num_decoded_bits - head;
        let mut t: usize = head;
        while t < end
            invariant
                head <= t <= end,
                t == run.head() + rows,
                head == run.head(),
                end == run.total - run.head(),
                0 <= rows,
                self.wf(),
                self.same_code(begin),
                run.valid(),
                run.code == self.code(),
                self.history_table.holds(run, rows, start),
                tracks(
                    run,
                    t as nat,
                    self.error_table.previous_errors@,
                    self.history_table.slack(),
                ),
                distance_fill.ready(run.num_bits()),
                distance_fill.pos() == t * run.code.rate,
                distance_fill.cost() == run.cost,
                decoded.wf(),
                decoded.bits().len() == start,
                forall|r: int|
                    0 <= r < start ==> #[trigger] decoded.bits()[r] == run.decoded_bit(r),
                run.rows() < 8 * decoded.buf@.len() + 8,
                decoded.buf@.len() == first_writer.buf@.len(),
                final(decoded.buf)@ == final(first_writer.buf)@,
            decreases end - t,
        {
            self.next_distances(distance_fill, Ghost(run), Ghost(t as int));
            self.body_step(Ghost(run), Ghost(rows), Ghost(start));
            let next: Ghost<int> = self.history_table.process(
                &mut self.error_table.errors,
                decoded,
                Ghost(run),
                Ghost(rows),
                Ghost(start),
            );
            proof {
                start = next@;
                rows = rows + 1;
                lemma_holds_fits(self.history_table, run, rows, start);
            }
            self.error_table.swap();
            t = t + 1;
        }
        Ghost(start)
    }

    /// Fills the errors and decisions of one tail step: only 0s shift in, so only
    /// multiples of `step` are possible.
    #[verifier::rlimit(40)]
    fn tail_step(&mut self, step: usize, Ghost(run): Ghost<Run>, Ghost(rows): Ghost<
        int,
    >, Ghost(start): Ghost<int>)
        requires
            old(self).wf(),
            run.valid(),
            run.code == old(self).code(),
            0 <= rows < run.rows(),
            step == run.step_at(run.head() + rows),
            is_distances(old(self).distances@, run, run.head() + rows),
            old(self).history_table.holds(run, rows, start),
            tracks(
                run,
                (run.head() + rows) as nat,
                old(self).error_table.previous_errors@,
                old(self).history_table.slack(),
            ),
        ensures
            final(self).wf(),
            final(self).same_code(*old(self)),
            final(self).history_table.holds(run, rows, start),
            final(self).history_table.slack() == old(self).history_table.slack(),
            forall|s: int|
                run.kept(run.head() + rows, s) ==> #[trigger] final(self).history_table.recorded(
                    run,
                    rows,
                    s,
                ),
            tracks(
                run,
                (run.head() + rows + 1) as nat,
                final(self).error_table.errors@,
                old(self).history_table.slack() + 1,
            ),
    {
        let ghost t = (run.head() + rows) as nat;
        let ghost table = self.poly_table@;
        let ghost first = *self;
        let ghost slack = self.history_table.slack();
        let ghost d = run.code.max_dist() as int;
        let ghost base = choose|base: nat| #[trigger]
            tracks_from(run, t, self.error_table.previous_errors@, slack, base);
        let ghost prevs = self.error_table.previous_errors@;
        proof {
            lemma_holds_fits(self.history_table, run, rows, start);
            lemma_metrics_fit(run, slack);
            lemma_metrics_fit(run, slack + 1);
            lemma_pow2_16(run.code.order);
            lemma_pow2_unfold(run.code.order);
            lemma_pow2_unfold((run.code.order - 1) as nat);
            lemma_step_bound(run, t as int);
            vstd::arithmetic::div_mod::lemma_small_mod(0, step as nat);
        }
        let half: usize = util::num_states_for_order(self.order - 2) as usize;
        let highbit: usize = 2 * half;
        let mut state: usize = 0;
        while state < highbit
            invariant
                state % step == 0,
                1 <= step <= 65536,
                step == run.step_at(t as int),
                highbit == 2 * half,
                half == pow2((run.code.order - 2) as nat),
                highbit == run.code.num_states(),
                highbit == pow2((run.code.order - 1) as nat),
                table.len() == 4 * half,
                half <= 16384,
                first.wf(),
                self.wf(),
                run.valid(),
                run.code == first.code(),
                t == run.head() + rows,
                0 <= rows < run.rows(),
                table == first.poly_table@,
                prevs == first.error_table.previous_errors@,
                d == run.code.max_dist(),
                slack == first.history_table.slack(),
                (run.head() + slack) * d + d == (run.head() + slack + 1) * d,
                (run.head() + slack + 1) * d <= 65535,
                is_distances(first.distances@, run, t as int),
                tracks_from(run, t, prevs, slack, base),
                *self == (Decoder {
                    error_table: ConvolutionalErrorTable {
                        errors: self.error_table.errors,
                        ..first.error_table
                    },
                    history_table: self.history_table,
                    ..first
                }),
                self.history_table.holds(run, rows, start),
                self.history_table.slack() == slack,
                forall|s: int|
                    0 <= s < state && run.kept(t as int, s)
                        ==> #[trigger] self.history_table.recorded(run, rows, s),
                forall|s: int|
                    0 <= s < state && run.kept(t as int, s) ==> {
                        &&& #[trigger] self.error_table.errors@[s] + base == run.code.metric(
                            run.cost,
                            t + 1,
                            s,
                        )
                        &&& self.error_table.errors@[s] <= (run.head() + slack + 1) * d
                    },
            decreases highbit + step - state,
        {
            let low_output: u16 = self.poly_table[state];
            let high_output: u16 = self.poly_table[state + highbit];
            let low_prev: u16 = self.error_table.previous_errors[state / 2];
            let high_prev: u16 = self.error_table.previous_errors[state / 2 + half];
            proof {
                let s = state as int;
                assert(run.kept(t as int, s));
                lemma_kept_previous(run, t as int, s, 0);
                lemma_kept_previous(run, t as int, s, 1);
                lemma_high_low(run.code, s);
                assert(prevs[s / 2] + base == run.code.metric(run.cost, t, s / 2));
                assert(prevs[s / 2 + half] + base == run.code.metric(run.cost, t, s / 2 + half));
                run.code.lemma_dist(run.cost, t as int, run.code.output(s));
                run.code.lemma_dist(run.cost, t as int, run.code.output(s + highbit));
            }
            let low_error: u16 = self.distances[low_output as usize] + low_prev;
            let high_error: u16 = self.distances[high_output as usize] + high_prev;
            proof {
                lemma_select(run, t, base, state as int, low_error as int, high_error as int);
            }
            let (error, successor): (u16, bool) = if low_error <= high_error {
                (low_error, false)
            } else {
                (high_error, true)
            };
            self.error_table.errors[state] = error;
            self.history_table.record(state, successor, Ghost(run), Ghost(rows), Ghost(start));
            proof {
                lemma_holds_fits(self.history_table, run, rows, start);
                let (at, k) = (state as int, step as int);
                assert forall|s: int| at < s < at + k implies !(#[trigger] run.kept(
                    t as int,
                    s,
                )) by {
                    vstd::arithmetic::div_mod::lemma_fundamental_div_mod(at, k);
                    let q = at / k;
                    assert(k * q == q * k) by (nonlinear_arith);
                    vstd::arithmetic::div_mod::lemma_fundamental_div_mod_converse(
                        s,
                        k,
                        q,
                        s - at,
                    );
                }
                vstd::arithmetic::div_mod::lemma_mod_add_multiples_vanish(at, k);
            }
            state = state + step;
        }
        assert(tracks_from(run, t + 1, self.error_table.errors@, slack + 1, base));
    }

    /// Tail phase: decide the last bits while zeros flush the register.
    fn decode_tail(
        &mut self,
        distance_fill: &mut ConvolutionalError,
        num_decoded_bits: usize,
        decoded: &mut BitWriter,
        Ghost(run): Ghost<Run>,
        Ghost(emitted): Ghost<int>,
    ) -> (next: Ghost<int>)
        requires
            old(self).wf(),
            run.valid(),
            run.code == old(self).code(),
            run.total == num_decoded_bits,
            old(self).history_table.holds(run, run.rows() - run.head(), emitted),
            tracks(
                run,
                (run.total - run.head()) as nat,
                old(self).error_table.previous_errors@,
                old(self).history_table.slack(),
            ),
            old(distance_fill).ready(run.num_bits()),
            old(distance_fill).pos() == (run.total - run.head()) * run.code.rate,
            old(distance_fill).cost() == run.cost,
            old(decoded).wf(),
            old(decoded).bits().len() == emitted,
            forall|r: int|
                0 <= r < emitted ==> #[trigger] old(decoded).bits()[r] == run.decoded_bit(r),
            run.rows() < 8 * old(decoded).buf@.len() + 8,
        ensures
            final(self).wf(),
            final(self).same_code(*old(self)),
            final(self).history_table.holds(run, run.rows() as int, next@),
            final(decoded).wf(),
            final(decoded).bits().len() == next@,
            forall|r: int|
                0 <= r < next@ ==> #[trigger] final(decoded).bits()[r] == run.decoded_bit(r),
            final(decoded).buf@.len() == old(decoded).buf@.len(),
            final(final(decoded).buf)@ == final(old(decoded).buf)@,
    {
        let ghost begin = *self;
        let ghost first_writer = *decoded;
        let ghost mut start: int = emitted;
        let head: usize = (self.order - 1) as usize;
        let ghost mut rows: int = run.rows() - run.head();
        let mut t: usize = num_decoded_bits - head;
        let mut step: usize = 2;
        proof {
            lemma2_to64();
        }
        while t < num_decoded_bits
            invariant
                num_decoded_bits - head <= t <= num_decoded_bits,
                num_decoded_bits == run.total,
                t == run.head() + rows,
                head == run.head(),
                0 <= rows <= run.rows(),
                step == pow2((t + 1 - (run.total - run.head())) as nat),
                self.wf(),
                self.same_code(begin),
                run.valid(),
                run.code == self.code(),
                self.history_table.holds(run, rows, start),
                tracks(
                    run,
                    t as nat,
                    self.error_table.previous_errors@,
                    self.history_table.slack(),
                ),
                distance_fill.ready(run.num_bits()),
                distance_fill.pos() == t * run.code.rate,
                distance_fill.cost() == run.cost,
                decoded.wf(),
                decoded.bits().len() == start,
                forall|r: int|
                    0 <= r < start ==> #[trigger] decoded.bits()[r] == run.decoded_bit(r),
                run.rows() < 8 * decoded.buf@.len() + 8,
                decoded.buf@.len() == first_writer.buf@.len(),
                final(decoded.buf)@ == final(first_writer.buf)@,
            decreases num_decoded_bits - t,
        {
            self.next_distances(distance_fill, Ghost(run), Ghost(t as int));
            self.tail_step(step, Ghost(run), Ghost(rows), Ghost(start));
            let next: Ghost<int> = self.history_table.process_step(
                step,
                &mut self.error_table.errors,
                decoded,
                Ghost(run),
                Ghost(rows),
                Ghost(start),
            );
            proof {
                lemma_step_bound(run, t as int);
                lemma_pow2_unfold((t + 2 - (run.total - run.head())) as nat);
                start = next@;
                rows = rows + 1;
                lemma_holds_fits(self.history_table, run, rows, start);
            }
            self.error_table.swap();
            step = 2 * step;
            t = t + 1;
        }
        Ghost(start)
    }

    /// All three phases, and the last traceback.
    fn decode_all(
        &mut self,
        distance_fill: &mut ConvolutionalError,
        num_decoded_bits: usize,
        decoded: &mut BitWriter,
        Ghost(run): Ghost<Run>,
    )
        requires
            old(self).wf(),
            run.valid(),
            run.code == old(self).code(),
            run.total == num_decoded_bits,
            old(distance_fill).ready(run.num_bits()),
            old(distance_fill).pos() == 0,
            old(distance_fill).cost() == run.cost,
            old(decoded).wf(),
            old(decoded).bits().len() == 0,
            run.rows() < 8 * old(decoded).buf@.len() + 8,
        ensures
            final(self).wf(),
            final(self).code() == old(self).code(),
            final(decoded).wf(),
            final(decoded).bits() == Seq::new(run.rows(), |r: int| run.decoded_bit(r)),
            final(decoded).buf@.len() == old(decoded).buf@.len(),
            final(final(decoded).buf)@ == final(old(decoded).buf)@,
    {
        proof {
            lemma_pow2_pos(run.head());
        }
        self.error_table.reset();
        self.history_table.reset(Ghost(run.code));
        self.decode_head(distance_fill, Ghost(run));
        proof {
            lemma_reset_holds(self.history_table, run);
        }
        let emitted: Ghost<int> = self.decode_body(
            distance_fill,
            num_decoded_bits,
            decoded,
            Ghost(run),
        );
        let emitted: Ghost<int> = self.decode_tail(
            distance_fill,
            num_decoded_bits,
            decoded,
            Ghost(run),
            emitted,
        );
        self.history_table.flush(decoded, Ghost(run), emitted);
    }

    /// Decodes a block whose shape has been checked, except for its length and
    /// the room in `msg`. Writes the payload, or, if `whole`, all that the block
    /// yields and `msg` takes.
    fn decode_block(
        &mut self,
        distance_fill: &mut ConvolutionalError,
        num_encoded_bits: usize,
        covered: bool,
        whole: bool,
        msg: &mut [u8],
    ) -> (res: Result<usize, DecodeError>)
        requires
            old(self).wf(),
            covered ==> old(distance_fill).ready(num_encoded_bits as int),
            covered ==> old(distance_fill).pos() == 0,
            bounded_cost(old(distance_fill).cost()),
        ensures
            final(self).wf(),
            final(self).code() == old(self).code(),
            decoded_bytes(
                old(self).code(),
                old(distance_fill).cost(),
                num_encoded_bits,
                covered,
                if whole {
                    yield_len(
                        num_encoded_bits as int,
                        old(self).code().rate as int,
                        old(self).code().order as int,
                        old(msg)@.len() as int,
                    )
                } else {
                    payload_len(
                        num_encoded_bits as int,
                        old(self).code().rate as int,
                        old(self).code().order as int,
                    )
                },
                old(msg)@,
                final(msg)@,
                res,
            ),
    {
        let ghost code = self.code();
        let ghost cost = distance_fill.cost();
        let invalid = DecodeError::InvalidLength { num_encoded_bits, rate: self.rate };
        if !covered {
            return Err(invalid);
        }
        let num_decoded_bits: usize = match error::validate_encoded_len(
            num_encoded_bits,
            self.rate,
            self.order,
        ) {
            Ok(n) => n,
            Err(_) => {
                return Err(invalid);
            },
        };
        let needed: usize = error::payload_len_bytes(num_encoded_bits, self.rate, self.order);
        let actual: usize = msg.len();
        if actual < needed {
            return Err(DecodeError::OutputTooSmall { needed, actual });
        }
        let ghost run = run_for(code, cost, num_encoded_bits as int);
        let ghost before = msg@;
        proof {
            let r = code.rate as int;
            vstd::arithmetic::div_mod::lemma_fundamental_div_mod(num_encoded_bits as int, r);
            assert(run.total * code.rate == num_encoded_bits) by (nonlinear_arith)
                requires
                    num_encoded_bits == r * (num_encoded_bits as int / r),
                    run.total == num_encoded_bits as int / r,
                    r == code.rate,
            ;
        }
        let rows: usize = num_decoded_bits - (self.order - 1) as usize;
        let mut scratch: Vec<u8> = vec![0u8; rows / 8];
        let mut bit_writer = BitWriter::new(scratch.as_mut_slice());
        self.decode_all(distance_fill, num_decoded_bits, &mut bit_writer, Ghost(run));
        let ghost bits = bit_writer.bits();
        let ghost bytes = bit_writer.buf@;
        proof {
            assert(bits.len() == rows);
            assert(bits.len() == 8 * bit_writer.byte_index + bit_writer.current_byte_len);
            assert(bit_writer.byte_index == rows / 8);
            assert forall|i: int| 0 <= i < 8 * (rows / 8) implies #[trigger] bit_at(bytes, i)
                == run.decoded_bit(i) by {
                assert(bits[i] == bit_at(bytes, i));
            }
        }
        let len: usize = if !whole {
            needed
        } else if rows / 8 <= actual {
            rows / 8
        } else {
            actual
        };
        let mut i: usize = 0;
        while i < len
            invariant
                i <= len,
                len <= rows / 8,
                scratch@ == bytes,
                bytes.len() == rows / 8,
                len <= msg@.len(),
                msg@.len() == before.len(),
                forall|k: int| 0 <= k < i ==> #[trigger] msg@[k] == bytes[k],
                forall|k: int| i <= k < msg@.len() ==> #[trigger] msg@[k] == before[k],
            decreases len - i,
        {
            msg[i] = scratch[i];
            i = i + 1;
        }
        proof {
            assert forall|k: int| 0 <= k < 8 * len implies #[trigger] bit_at(msg@, k)
                == run.decoded_bit(k) by {
                assert(msg@[k / 8] == bytes[k / 8]);
                assert(bit_at(bytes, k) == run.decoded_bit(k));
            }
            assert(msg@.skip(len as int) =~= before.skip(len as int));
        }
        Ok(len)
    }

    /// Decodes a hard-decision block.
    ///
    /// `num_encoded_bits` is the length of `encoded` in *bits*. It need not be a
    /// multiple of 8, but it must be a multiple of `rate`. `msg` must be large
    /// enough to hold the decoded payload.
    ///
    /// On success this returns the number of bytes written to `msg`. It returns
    /// [`InvalidLength`](DecodeError::InvalidLength) if the encoded length is not
    /// a multiple of `rate`, if the block is too short to decode, or if `encoded`
    /// is shorter than `num_encoded_bits` describes, and
    /// [`OutputTooSmall`](DecodeError::OutputTooSmall) if `msg` is too small to
    /// hold the payload.
    pub fn decode_hard(&mut self, encoded: &[u8], num_encoded_bits: usize, msg: &mut [u8]) -> (res:
        Result<usize, DecodeError>)
        requires
            old(self).wf(),
        ensures
            final(self).wf(),
            final(self).code() == old(self).code(),
            decode_result(
                old(self).code(),
                hard_cost(encoded@, None),
                num_encoded_bits,
                bytes_for(num_encoded_bits as int) <= encoded@.len(),
                old(msg)@,
                final(msg)@,
                res,
            ),
    {
        let covered: bool = div_ceil_8(num_encoded_bits) <= encoded.len();
        proof {
            lemma_costs_bounded(encoded@, None);
        }
        if num_encoded_bits == 0 || !covered {
            // too short for any code
            assert(!valid_encoded_len(
                0,
                self.code().rate as int,
                self.code().order as int,
            )) by {
                assert(0int / (self.code().rate as int) == 0) by (nonlinear_arith)
                    requires
                        self.code().rate >= 1,
                ;
            }
            return Err(DecodeError::InvalidLength { num_encoded_bits, rate: self.rate });
        }
        let mut distance_fill = ConvolutionalError::Hard {
            encoded: BitReader::new(encoded),
            erasure: None,
        };
        self.decode_block(&mut distance_fill, num_encoded_bits, covered, false, msg)
    }

    /// Decodes a soft-decision block into `msg`.
    ///
    /// Each element of `encoded` is one 8-bit soft symbol, one symbol per encoded
    /// bit. `255` is a confident `1`, `0` is a confident `0`, and `128` is a
    /// fully-erased symbol carrying no information. Values in between express
    /// confidence, so a demodulator that reports its certainty lets the decoder
    /// correct more errors than hard decisions alone.
    ///
    /// The encoded length in bits is `encoded.len()`, which must be a multiple of
    /// `rate`. `msg` must be large enough to hold the decoded payload.
    ///
    /// On success this returns the number of bytes written to `msg`. The errors
    /// are those of [`decode_hard`](Self::decode_hard).
    pub fn decode_soft(&mut self, encoded: &[u8], msg: &mut [u8]) -> (res: Result<
        usize,
        DecodeError,
    >)
        requires
            old(self).wf(),
        ensures
            final(self).wf(),
            final(self).code() == old(self).code(),
            decode_result(
                old(self).code(),
                soft_cost(encoded@, None),
                encoded@.len() as usize,
                true,
                old(msg)@,
                final(msg)@,
                res,
            ),
    {
        proof {
            lemma_costs_bounded(encoded@, None);
        }
        let mut distance_fill = ConvolutionalError::Soft { symbols: encoded, at: 0, erasure: None };
        self.decode_block(&mut distance_fill, encoded.len(), true, false, msg)
    }

    /// Decodes a soft-decision block as [`decode_soft`](Self::decode_soft) does,
    /// but writes every whole byte that the block yields, as far as `msg` goes. A
    /// block that ends with `order - 1` flush steps, instead of the `order + 1`
    /// that [`Encoder`](super::Encoder) appends, yields its whole message so.
    pub(crate) fn decode_soft_whole(&mut self, encoded: &[u8], msg: &mut [u8]) -> (res: Result<
        usize,
        DecodeError,
    >)
        requires
            old(self).wf(),
        ensures
            final(self).wf(),
            final(self).code() == old(self).code(),
            decoded_bytes(
                old(self).code(),
                soft_cost(encoded@, None),
                encoded@.len() as usize,
                true,
                yield_len(
                    encoded@.len() as int,
                    old(self).code().rate as int,
                    old(self).code().order as int,
                    old(msg)@.len() as int,
                ),
                old(msg)@,
                final(msg)@,
                res,
            ),
    {
        proof {
            lemma_costs_bounded(encoded@, None);
        }
        let mut distance_fill = ConvolutionalError::Soft { symbols: encoded, at: 0, erasure: None };
        self.decode_block(&mut distance_fill, encoded.len(), true, true, msg)
    }

    /// Decodes a hard-decision block in which some bits are known to be missing.
    ///
    /// `erasure` is a packed mask with one bit per encoded bit, set where the bit
    /// is erased. Erased bits contribute nothing to the path metric. Otherwise as
    /// [`decode_hard`](Self::decode_hard); a mask shorter than the block is an
    /// [`InvalidLength`](DecodeError::InvalidLength).
    pub fn decode_hard_with_erasure(
        &mut self,
        encoded: &[u8],
        num_encoded_bits: usize,
        erasure: &[u8],
        msg: &mut [u8],
    ) -> (res: Result<usize, DecodeError>)
        requires
            old(self).wf(),
        ensures
            final(self).wf(),
            final(self).code() == old(self).code(),
            decode_result(
                old(self).code(),
                hard_cost(encoded@, Some(erasure@)),
                num_encoded_bits,
                bytes_for(num_encoded_bits as int) <= encoded@.len() && bytes_for(
                    num_encoded_bits as int,
                ) <= erasure@.len(),
                old(msg)@,
                final(msg)@,
                res,
            ),
    {
        let bytes: usize = div_ceil_8(num_encoded_bits);
        let covered: bool = bytes <= encoded.len() && bytes <= erasure.len();
        proof {
            lemma_costs_bounded(encoded@, Some(erasure@));
        }
        if num_encoded_bits == 0 || !covered {
            assert(!valid_encoded_len(
                0,
                self.code().rate as int,
                self.code().order as int,
            )) by {
                assert(0int / (self.code().rate as int) == 0) by (nonlinear_arith)
                    requires
                        self.code().rate >= 1,
                ;
            }
            return Err(DecodeError::InvalidLength { num_encoded_bits, rate: self.rate });
        }
        let mut distance_fill = ConvolutionalError::Hard {
            encoded: BitReader::new(encoded),
            erasure: Some(BitReader::new(erasure)),
        };
        self.decode_block(&mut distance_fill, num_encoded_bits, covered, false, msg)
    }

    /// Decodes a soft-decision block in which some symbols are known to be
    /// missing.
    ///
    /// `erasure` is a packed mask with one bit per encoded symbol, set where the
    /// symbol is erased. Erased symbols contribute nothing to the path metric.
    /// Otherwise as [`decode_soft`](Self::decode_soft); a mask shorter than the
    /// block is an [`InvalidLength`](DecodeError::InvalidLength).
    pub fn decode_soft_with_erasure(
        &mut self,
        encoded: &[u8],
        erasure: &[u8],
        msg: &mut [u8],
    ) -> (res: Result<usize, DecodeError>)
        requires
            old(self).wf(),
        ensures
            final(self).wf(),
            final(self).code() == old(self).code(),
            decode_result(
                old(self).code(),
                soft_cost(encoded@, Some(erasure@)),
                encoded@.len() as usize,
                bytes_for(encoded@.len() as int) <= erasure@.len(),
                old(msg)@,
                final(msg)@,
                res,
            ),
    {
        let num_encoded_bits: usize = encoded.len();
        let covered: bool = div_ceil_8(num_encoded_bits) <= erasure.len();
        proof {
            lemma_costs_bounded(encoded@, Some(erasure@));
        }
        if num_encoded_bits == 0 || !covered {
            assert(!valid_encoded_len(
                0,
                self.code().rate as int,
                self.code().order as int,
            )) by {
                assert(0int / (self.code().rate as int) == 0) by (nonlinear_arith)
                    requires
                        self.code().rate >= 1,
                ;
            }
            return Err(DecodeError::InvalidLength { num_encoded_bits, rate: self.rate });
        }
        let mut distance_fill = ConvolutionalError::Soft {
            symbols: encoded,
            at: 0,
            erasure: Some(BitReader::new(erasure)),
        };
        self.decode_block(&mut distance_fill, num_encoded_bits, covered, false, msg)
    }

    /// Returns the encoded length, in *bits*, of a message of `len` *bytes*.
    pub fn encoded_len_bits(&self, len: usize) -> (bits: usize)
        requires
            self.wf(),
            encoded_len(self.code().rate as int, self.code().order as int, len as int)
                <= usize::MAX,
        ensures
            bits == encoded_len(self.code().rate as int, self.code().order as int, len as int),
            bits == self.code().rate * (8 * len + self.code().order + 1),
    {
        super::encoded_len_bits(self.rate, self.order, len)
    }
}

/// The registers and predecessors of states `2 * p` and `2 * p + 1`.
pub proof fn lemma_neighbours(code: Trellis, p: int, half: int)
    requires
        code.valid(),
        0 <= p < half,
        half == pow2((code.order - 2) as nat),
        2 * half == pow2((code.order - 1) as nat),
    ensures
        code.register(2 * p, 0) == 2 * p,
        code.register(2 * p + 1, 0) == 2 * p + 1,
        code.register(2 * p, 1) == 2 * (p + half),
        code.register(2 * p + 1, 1) == 2 * (p + half) + 1,
        code.previous(2 * p, 0) == p,
        code.previous(2 * p + 1, 0) == p,
        code.previous(2 * p, 1) == p + half,
        code.previous(2 * p + 1, 1) == p + half,
{
    lemma_high_low(code, 2 * p);
    lemma_high_low(code, 2 * p + 1);
}

/// The two registers and predecessors of a state.
pub proof fn lemma_high_low(code: Trellis, s: int)
    ensures
        code.register(s, 0) == s,
        code.register(s, 1) == s + pow2((code.order - 1) as nat),
        code.previous(s, 0) == s / 2,
        code.previous(s, 1) == s / 2 + pow2((code.order - 2) as nat),
{
    let (a, b) = (pow2((code.order - 1) as nat) as int, pow2((code.order - 2) as nat) as int);
    assert(0 * a == 0 && 0 * b == 0 && 1 * a == a && 1 * b == b) by (nonlinear_arith);
}

/// The cost of the register of pair `p` whose newest bit is `b`, on top of the
/// metric of their predecessor.
pub open spec fn branch_sum(
    pair_table: ConvolutionalPairTable,
    prevs: Seq<u16>,
    p: int,
    b: int,
) -> int {
    prevs[p] + if b == 0 {
        pair_table.even(p)
    } else {
        pair_table.odd(p)
    }
}

/// Adds the cost of every register to the metric of its predecessor.
fn add_branches(pair_table: &ConvolutionalPairTable, previous: &[u16], sums: &mut [u16], Ghost(
    table,
): Ghost<Seq<u16>>, Ghost(rate): Ghost<nat>)
    requires
        pair_table.wf(table, rate),
        table.len() == 2 * previous@.len(),
        previous@.len() <= 32768,
        previous@.len() % 4 == 0,
        old(sums)@.len() == 2 * previous@.len(),
        forall|p: int|
            0 <= p < previous@.len() ==> {
                &&& #[trigger] pair_table.even(p) + previous@[p] <= 65535
                &&& pair_table.odd(p) + previous@[p] <= 65535
            },
    ensures
        final(sums)@.len() == old(sums)@.len(),
        forall|i: int|
            0 <= i < final(sums)@.len() ==> #[trigger] final(sums)@[i] == branch_sum(
                *pair_table,
                previous@,
                i / 2,
                i % 2,
            ),
{
    let mut p: usize = 0;
    while p < previous.len()
        invariant
            p <= previous@.len() <= 32768,
            p % 4 == 0,
            previous@.len() % 4 == 0,
            pair_table.wf(table, rate),
            table.len() == 2 * previous@.len(),
            sums@.len() == 2 * previous@.len(),
            forall|p: int|
                0 <= p < previous@.len() ==> {
                    &&& #[trigger] pair_table.even(p) + previous@[p] <= 65535
                    &&& pair_table.odd(p) + previous@[p] <= 65535
                },
            forall|i: int|
                0 <= i < 2 * p ==> #[trigger] sums@[i] == branch_sum(
                    *pair_table,
                    previous@,
                    i / 2,
                    i % 2,
                ),
        decreases previous@.len() - p,
    {
        let costs: Eight = pair_table.get_four(p, Ghost(table), Ghost(rate));
        assert forall|k: int| 0 <= k < 8 implies #[trigger] costs@[k] + previous@[p + k / 2]
            <= u16::MAX by {
            assert(pair_table.even(p + k / 2) + previous@[p + k / 2] <= 65535);
        }
        let branches: Eight = add_pred(&costs, previous, p);
        store_eight(sums, 2 * p, &branches);
        assert forall|i: int| 0 <= i < 2 * (p + 4) implies #[trigger] sums@[i] == branch_sum(
            *pair_table,
            previous@,
            i / 2,
            i % 2,
        ) by {
            if i >= 2 * p {
                let k = i - 2 * p;
                assert(branches@[k] == costs@[k] + previous@[p + k / 2]);
                assert(i / 2 == p + k / 2 && i % 2 == k % 2);
            }
        }
        p = p + 4;
    }
}

/// Keeps the lesser of each two.
fn keep_lesser(low: &[u16], high: &[u16], kept: &mut [u16])
    requires
        low@.len() == high@.len() == old(kept)@.len(),
    ensures
        final(kept)@.len() == old(kept)@.len(),
        forall|s: int|
            0 <= s < final(kept)@.len() ==> #[trigger] final(kept)@[s] == if low@[s] <= high@[s] {
                low@[s]
            } else {
                high@[s]
            },
{
    let n: usize = kept.len();
    // the lengths are equal, and the subranges tell the compiler so
    let low: &[u16] = slice_subrange(low, 0, n);
    let high: &[u16] = slice_subrange(high, 0, n);
    let mut s: usize = 0;
    while s < n
        invariant
            s <= n,
            low@.len() == high@.len() == kept@.len() == n,
            forall|i: int|
                0 <= i < s ==> #[trigger] kept@[i] == if low@[i] <= high@[i] {
                    low@[i]
                } else {
                    high@[i]
                },
        decreases n - s,
    {
        kept[s] = if low[s] <= high[s] {
            low[s]
        } else {
            high[s]
        };
        s = s + 1;
    }
}

/// A pair's costs are those of its two registers, and stay within range when a
/// metric is added.
proof fn lemma_pair_costs(
    run: Run,
    t: nat,
    base: nat,
    prevs: Seq<u16>,
    slack: int,
    pair_table: ConvolutionalPairTable,
    table: Seq<u16>,
    distances: Seq<u16>,
    p: int,
)
    requires
        run.valid(),
        run.head() <= t < run.total - run.head(),
        is_distances(distances, run, t as int),
        table.len() == 2 * run.code.num_states(),
        is_poly_table(table, run.code),
        tracks_from(run, t, prevs, slack, base),
        (run.head() + slack) * run.code.max_dist() + run.code.max_dist() <= 65535,
        0 <= p < run.code.num_states(),
        pair_table.even(p) == distances[table[2 * p] as int],
        pair_table.odd(p) == distances[table[2 * p + 1] as int],
    ensures
        pair_table.even(p) == run.code.dist(run.cost, t as int, run.code.output(2 * p)),
        pair_table.odd(p) == run.code.dist(
            run.cost,
            t as int,
            run.code.output(2 * p + 1),
        ),
        prevs[p] + base == run.code.metric(run.cost, t, p),
        prevs[p] <= (run.head() + slack) * run.code.max_dist(),
        pair_table.even(p) + prevs[p] <= 65535,
        pair_table.odd(p) + prevs[p] <= 65535,
        pair_table.even(p) <= run.code.max_dist(),
        pair_table.odd(p) <= run.code.max_dist(),
{
    assert(run.kept(t - 1, p));
    assert(prevs[p] + base == run.code.metric(run.cost, t, p));
    run.code.lemma_dist(run.cost, t as int, run.code.output(2 * p));
    run.code.lemma_dist(run.cost, t as int, run.code.output(2 * p + 1));
}

/// Every pair's entry holds the costs of its two registers.
pub open spec fn pairs_filled(
    pair_table: ConvolutionalPairTable,
    table: Seq<u16>,
    distances: Seq<u16>,
) -> bool {
    &&& forall|i: int|
        0 <= 2 * i < table.len() ==> #[trigger] pair_table.even(i) == distances[table[2
            * i] as int]
    &&& forall|i: int|
        0 <= 2 * i < table.len() ==> #[trigger] pair_table.odd(i) == distances[table[2 * i
            + 1] as int]
}

/// The choice for state `s`, from the sums of its two branches.
proof fn lemma_settled(
    run: Run,
    t: nat,
    base: nat,
    prevs: Seq<u16>,
    slack: int,
    pair_table: ConvolutionalPairTable,
    table: Seq<u16>,
    distances: Seq<u16>,
    half: int,
    s: int,
)
    requires
        run.valid(),
        run.head() <= t < run.total - run.head(),
        is_distances(distances, run, t as int),
        table.len() == 2 * run.code.num_states(),
        is_poly_table(table, run.code),
        pairs_filled(pair_table, table, distances),
        tracks_from(run, t, prevs, slack, base),
        (run.head() + slack) * run.code.max_dist() + run.code.max_dist() <= 65535,
        half == pow2((run.code.order - 2) as nat),
        2 * half == run.code.num_states(),
        0 <= s < 2 * half,
    ensures
        ({
            let low = branch_sum(pair_table, prevs, s / 2, s % 2);
            let high = branch_sum(pair_table, prevs, s / 2 + half, s % 2);
            &&& (if low <= high {
                low
            } else {
                high
            }) + base == run.code.metric(run.cost, t + 1, s)
            &&& low <= (run.head() + slack) * run.code.max_dist() + run.code.max_dist()
            &&& high <= (run.head() + slack) * run.code.max_dist() + run.code.max_dist()
            &&& took_high(run, t as int, s) == (low > high)
        }),
{
    let p = s / 2;
    let q = p + half;
    lemma_pair_costs(run, t, base, prevs, slack, pair_table, table, distances, p);
    lemma_pair_costs(run, t, base, prevs, slack, pair_table, table, distances, q);
    lemma_neighbours(run.code, p, half);
    assert(2 * p + s % 2 == s);
    lemma_select(
        run,
        t,
        base,
        s,
        branch_sum(pair_table, prevs, p, s % 2),
        branch_sum(pair_table, prevs, q, s % 2),
    );
}

} // verus!
