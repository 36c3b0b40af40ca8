//! The history of decisions: a ring of rows, one decision per state in each,
//! traced back whenever it is full.

use super::bit::BitWriter;
use super::trellis::Trellis;
use super::util;
use super::viterbi::{
    lemma_best_exists, lemma_best_unique, lemma_choice_bit, lemma_kept_previous,
    lemma_step_positive, Run,
};
use vstd::arithmetic::power2::{lemma_pow2_pos, lemma_pow2_unfold, pow2};
use vstd::prelude::*;
use vstd::slice::slice_subrange;

verus! {

/// The metrics in `errors` are the true ones less a common base, for every
/// state that is still possible after step `t - 1`, and have grown by `slack`
/// steps at most since the base was last moved.
pub open spec fn tracks_from(
    run: Run,
    t: nat,
    errors: Seq<u16>,
    slack: int,
    base: nat,
) -> bool {
    &&& errors.len() == run.code.num_states()
    &&& forall|s: int|
        run.kept(t - 1, s) ==> {
            &&& #[trigger] errors[s] + base == run.code.metric(run.cost, t, s)
            &&& errors[s] <= (run.head() + slack) * run.code.max_dist()
        }
}

pub open spec fn tracks(run: Run, t: nat, errors: Seq<u16>, slack: int) -> bool {
    exists|base: nat| #[trigger] tracks_from(run, t, errors, slack, base)
}

/// Metrics are pulled down after this many steps.
pub open spec fn renorm_interval(code: Trellis) -> int {
    32767int / (code.max_dist() as int)
}

/// With the interval observed, 16 bits hold every metric.
pub proof fn lemma_metrics_fit(run: Run, slack: int)
    requires
        run.valid(),
        0 <= slack <= renorm_interval(run.code),
    ensures
        255 <= run.code.max_dist() <= 2040,
        renorm_interval(run.code) >= 1,
        (run.head() + slack) * run.code.max_dist() <= 65535,
        (run.head() + slack) * run.code.max_dist() + run.code.max_dist() == (run.head() + slack
            + 1) * run.code.max_dist(),
{
    let d = run.code.max_dist() as int;
    let i = renorm_interval(run.code);
    let h = run.head() as int;
    vstd::arithmetic::div_mod::lemma_fundamental_div_mod(32767, d);
    assert(i >= 1) by (nonlinear_arith)
        requires
            32767 == d * i + 32767int % d,
            0 <= 32767int % d < d,
            255 <= d <= 2040,
    ;
    assert((h + slack) * d <= 65535) by (nonlinear_arith)
        requires
            32767 >= d * i,
            0 <= slack <= i,
            0 <= h <= 15,
            255 <= d <= 2040,
    ;
    assert((h + slack) * d + d == (h + slack + 1) * d) by (nonlinear_arith);
}

/// The first index, among the multiples of `step`, of a least value.
pub open spec fn is_least(errors: Seq<u16>, step: int, i: int) -> bool {
    &&& 0 <= i < errors.len()
    &&& i % step == 0
    &&& forall|r: int|
        0 <= r < errors.len() && r % step == 0 ==> {
            &&& errors[i] <= #[trigger] errors[r]
            &&& r < i ==> errors[i] < errors[r]
        }
}

/// The cheapest way into `s` at step `t` comes from the state whose oldest bit
/// is set.
pub open spec fn took_high(run: Run, t: int, s: int) -> bool {
    run.code.choice(run.cost, t as nat, s) == 1
}

/// A ring of rows of decisions.
#[derive(Debug, Clone)]
pub struct ConvolutionalHistoryTable {
    min_traceback_length: usize,
    num_states: usize,
    highbit: u16,
    history: Vec<u8>,
    decode_buf: Vec<u8>,
    history_index: usize,
    history_len: usize,
    history_cap: usize,
    renormalize_interval: u32,
    renormalize_counter: u32,
}

/// Rows of a ring do not overlap.
proof fn lemma_row_index(a: int, b: int, s: int, r: int, n: int)
    requires
        0 <= s < n,
        0 <= r < n,
        a * n + s == b * n + r,
    ensures
        a == b,
        s == r,
{
    assert(a == b && s == r) by (nonlinear_arith)
        requires
            0 <= s < n,
            0 <= r < n,
            a * n + s == b * n + r,
    ;
}

proof fn lemma_row_bound(a: int, s: int, n: int, cap: int)
    requires
        0 <= a < cap,
        0 <= s < n,
    ensures
        0 <= a * n <= a * n + s < cap * n,
{
    assert(0 <= a * n <= a * n + s < cap * n) by (nonlinear_arith)
        requires
            0 <= a < cap,
            0 <= s < n,
    ;
}

/// The ring stays small.
proof fn lemma_ring_size(cap: int, n: int)
    requires
        0 <= cap <= 900,
        0 <= n <= 65536,
    ensures
        0 <= cap * n <= 58982400,
{
    assert(0 <= cap * n <= 58982400) by (nonlinear_arith)
        requires
            0 <= cap <= 900,
            0 <= n <= 65536,
    ;
}

/// The ring position after the last.
proof fn lemma_ring_next(r: int, cap: int)
    requires
        0 <= r,
        cap > 0,
    ensures
        (r + 1) % cap == if r % cap + 1 == cap {
            0
        } else {
            r % cap + 1
        },
{
    let (q, m) = (r / cap, r % cap);
    vstd::arithmetic::div_mod::lemma_fundamental_div_mod(r, cap);
    if m + 1 == cap {
        assert(r + 1 == (q + 1) * cap + 0) by (nonlinear_arith)
            requires
                r == cap * q + m,
                m + 1 == cap,
        ;
        vstd::arithmetic::div_mod::lemma_fundamental_div_mod_converse(r + 1, cap, q + 1, 0);
    } else {
        assert(r + 1 == q * cap + (m + 1)) by (nonlinear_arith)
            requires
                r == cap * q + m,
        ;
        vstd::arithmetic::div_mod::lemma_fundamental_div_mod_converse(r + 1, cap, q, m + 1);
    }
}

/// Rows less than a full turn apart have different ring positions.
proof fn lemma_ring_distinct(a: int, b: int, cap: int)
    requires
        0 <= a < b,
        b - a < cap,
    ensures
        a % cap != b % cap,
{
    if a % cap == b % cap {
        vstd::arithmetic::div_mod::lemma_fundamental_div_mod(a, cap);
        vstd::arithmetic::div_mod::lemma_fundamental_div_mod(b, cap);
        let (p, q) = (a / cap, b / cap);
        assert(b - a == cap * (q - p)) by (nonlinear_arith)
            requires
                a == cap * p + a % cap,
                b == cap * q + b % cap,
                a % cap == b % cap,
        ;
        assert(false) by (nonlinear_arith)
            requires
                b - a == cap * (q - p),
                0 < b - a < cap,
        ;
    }
}

impl ConvolutionalHistoryTable {
    /// The sizes belong to a decoder of this code.
    pub closed spec fn fits(self, code: Trellis) -> bool {
        &&& code.valid()
        &&& code.order >= 4
        &&& self.min_traceback_length == 5 * code.order
        &&& self.num_states == code.num_states()
        &&& self.highbit == code.num_states()
        &&& self.history_cap == 5 * code.order + util::group_length(code.order as int)
        &&& self.history@.len() == self.history_cap * self.num_states
        &&& self.decode_buf@.len() == self.history_cap
        &&& self.renormalize_interval == renorm_interval(code)
    }

    /// Nothing recorded.
    pub closed spec fn is_reset(self) -> bool {
        &&& self.history_len == 0
        &&& self.history_index == 0
        &&& self.renormalize_counter == 0
    }

    /// Steps since the metrics were last pulled down.
    pub closed spec fn slack(self) -> int {
        self.renormalize_counter as int
    }

    /// The row that is being filled lies in the ring.
    pub closed spec fn has_row(self) -> bool {
        &&& self.history_index < self.history_cap
        &&& self.history@.len() == self.history_cap * self.num_states
    }

    /// The row that is being filled, a byte for each state.
    pub closed spec fn row(self) -> Seq<u8> {
        let at = self.history_index * self.num_states;
        self.history@.subrange(at, at + self.num_states)
    }

    /// What the ring holds at state `s` of row `r`.
    closed spec fn decision(self, r: int, s: int) -> bool {
        self.history@[(r % (self.history_cap as int)) * self.num_states + s] != 0
    }

    /// `rows` decisions have been made, of which the first `start` have been
    /// emitted; the ring holds the others.
    pub closed spec fn holds(self, run: Run, rows: int, start: int) -> bool {
        &&& run.valid()
        &&& self.fits(run.code)
        &&& 0 <= start <= rows <= run.rows()
        &&& start % run.group() == 0
        &&& rows - start < self.history_cap
        &&& self.history_len == rows - start
        &&& self.history_index == rows % (self.history_cap as int)
        &&& self.renormalize_counter < self.renormalize_interval
        &&& forall|r: int, s: int|
            start <= r < rows && run.kept(run.head() + r, s) ==> #[trigger] self.decision(r, s)
                == took_high(run, run.head() + r, s)
    }

    /// The row that is being filled holds the decision for state `s`.
    pub closed spec fn recorded(self, run: Run, rows: int, s: int) -> bool {
        self.decision(rows, s) == took_high(run, run.head() + rows, s)
    }

    /// A ring of `min_traceback_length + traceback_group_length` rows, with
    /// nothing recorded. Made with the sizes that a code calls for, it fits
    /// that code.
    pub fn new(
        min_traceback_length: u32,
        traceback_group_length: u32,
        renormalize_interval: u32,
        num_states: u32,
        highbit: u16,
    ) -> (table: ConvolutionalHistoryTable)
        requires
            min_traceback_length + traceback_group_length <= u32::MAX,
            (min_traceback_length + traceback_group_length) * num_states <= usize::MAX,
        ensures
            table.is_reset(),
            min_traceback_length + traceback_group_length > 0 ==> table.has_row(),
            table.has_row() ==> table.row() == Seq::new(num_states as nat, |s: int| 0u8),
            forall|code: Trellis|
                {
                    &&& code.valid()
                    &&& code.order >= 4
                    &&& min_traceback_length == 5 * code.order
                    &&& traceback_group_length == util::group_length(code.order as int)
                    &&& renormalize_interval == renorm_interval(code)
                    &&& num_states == code.num_states()
                    &&& highbit == code.num_states()
                } ==> #[trigger] table.fits(code),
    {
        let cap: usize = (min_traceback_length + traceback_group_length) as usize;
        assert(0 * num_states == 0 && (cap > 0 ==> num_states <= cap * num_states)) by (nonlinear_arith)
            requires
                num_states >= 0,
        ;
        let table = ConvolutionalHistoryTable {
            min_traceback_length: min_traceback_length as usize,
            num_states: num_states as usize,
            highbit,
            history: vec![0u8; cap * num_states as usize],
            decode_buf: vec![0u8; cap],
            history_index: 0,
            history_len: 0,
            history_cap: cap,
            renormalize_interval,
            renormalize_counter: 0,
        };
        assert(table.has_row() ==> table.row() =~= Seq::new(num_states as nat, |s: int| 0u8));
        table
    }

    /// `after` is this table with another row being filled.
    pub closed spec fn refilled(self, after: ConvolutionalHistoryTable, row: Seq<u8>) -> bool {
        let at = self.history_index * self.num_states;
        &&& after.history@ =~= self.history@.take(at) + row + self.history@.skip(
            at + self.num_states,
        )
        &&& after.decode_buf@ == self.decode_buf@
        &&& after.min_traceback_length == self.min_traceback_length
        &&& after.num_states == self.num_states
        &&& after.highbit == self.highbit
        &&& after.history_index == self.history_index
        &&& after.history_len == self.history_len
        &&& after.history_cap == self.history_cap
        &&& after.renormalize_interval == self.renormalize_interval
        &&& after.renormalize_counter == self.renormalize_counter
    }

    /// The row of the current step, a byte for each state: zero where the path into
    /// it comes from the state whose oldest bit is clear.
    #[inline(always)]
    pub fn get_slice(&mut self) -> (row: &mut [u8])
        requires
            old(self).has_row(),
        ensures
            row@ == old(self).row(),
            old(self).refilled(*final(self), final(row)@),
            final(row)@.len() == row@.len() ==> final(self).has_row(),
            final(row)@.len() == row@.len() ==> final(self).row() == final(row)@,
    {
        let n: usize = self.num_states;
        proof {
            let (i, cap) = (self.history_index as int, self.history_cap as int);
            assert(0 <= i * n && i * n + n <= cap * n) by (nonlinear_arith)
                requires
                    0 <= i < cap,
                    n >= 0,
            ;
            assert(self.history.len() == self.history@.len());
        }
        let at: usize = self.history_index * n;
        let (_, rest) = self.history.as_mut_slice().split_at_mut(at);
        let (row, _) = rest.split_at_mut(n);
        row
    }

    /// Filling the current row leaves the others as they are.
    pub proof fn lemma_refilled(
        self,
        after: ConvolutionalHistoryTable,
        row: Seq<u8>,
        run: Run,
        rows: int,
        start: int,
    )
        requires
            self.holds(run, rows, start),
            self.refilled(after, row),
            row.len() == run.code.num_states(),
        ensures
            after.holds(run, rows, start),
            after.slack() == self.slack(),
            forall|s: int|
                0 <= s < run.code.num_states() ==> #[trigger] after.recorded(run, rows, s) == ((
                row[s] != 0) == took_high(run, run.head() + rows, s)),
            forall|s: int|
                0 <= s < run.code.num_states() ==> #[trigger] self.recorded(run, rows, s) == ((
                self.row()[s] != 0) == took_high(run, run.head() + rows, s)),
    {
        let cap = self.history_cap as int;
        let n = self.num_states as int;
        let at = self.history_index * n;
        util::lemma_pow2_16((run.code.order - 1) as nat);
        lemma_ring_size(cap, n);
        lemma_row_bound(self.history_index as int, n - 1, n, cap);
        assert((rows % cap) * n == at);
        assert forall|r: int, q: int|
            start <= r < rows && run.kept(run.head() + r, q) implies #[trigger] after.decision(r, q)
            == took_high(run, run.head() + r, q) by {
            assert(self.decision(r, q) == took_high(run, run.head() + r, q));
            lemma_ring_distinct(r, rows, cap);
            vstd::arithmetic::div_mod::lemma_mod_bound(r, cap);
            lemma_row_bound(r % cap, q, n, cap);
            let k = (r % cap) * n + q;
            if at <= k < at + n {
                lemma_row_index(r % cap, rows % cap, q, k - at, n);
            }
        }
    }

    /// A table that holds decisions has a row to fill.
    pub proof fn lemma_has_row(self, run: Run, rows: int, start: int)
        requires
            self.holds(run, rows, start),
        ensures
            self.has_row(),
            self.row().len() == run.code.num_states(),
    {
        let cap = self.history_cap as int;
        let n = self.num_states as int;
        util::lemma_pow2_16((run.code.order - 1) as nat);
        lemma_ring_size(cap, n);
        vstd::arithmetic::div_mod::lemma_mod_bound(rows, cap);
        lemma_row_bound(self.history_index as int, n - 1, n, cap);
    }

    /// Records the decision for state `s` in the row being filled.
    #[inline(always)]
    pub fn record(&mut self, s: usize, high: bool, Ghost(run): Ghost<Run>, Ghost(rows): Ghost<
        int,
    >, Ghost(start): Ghost<int>)
        requires
            old(self).holds(run, rows, start),
            s < run.code.num_states(),
            high == took_high(run, run.head() + rows, s as int),
        ensures
            final(self).holds(run, rows, start),
            final(self).slack() == old(self).slack(),
            final(self).recorded(run, rows, s as int),
            forall|r: int|
                0 <= r < run.code.num_states() && old(self).recorded(run, rows, r)
                    ==> #[trigger] final(self).recorded(run, rows, r),
    {
        proof {
            self.lemma_has_row(run, rows, start);
        }
        let row = self.get_slice();
        row[s] = high as u8;
        let ghost filled = row@;
        proof {
            old(self).lemma_refilled(*self, filled, run, rows, start);
        }
    }

    /// Finds the state with the least metric among the multiples of
    /// `search_every`, the first one where several are least.
    pub fn least_error_path(&self, distances: &[u16], search_every: usize) -> (best: u16)
        requires
            1 <= distances@.len() <= 65536,
            1 <= search_every <= 65536,
        ensures
            is_least(distances@, search_every as int, best as int),
    {
        if search_every == 1 {
            return first_least(distances);
        }
        let mut best_i: usize = 0;
        let mut best: u16 = distances[0];
        let mut i: usize = search_every;
        proof {
            let step = search_every as int;
            vstd::arithmetic::div_mod::lemma_small_mod(0, step as nat);
            assert forall|r: int|
                #![trigger distances@[r]]
                0 <= r < i && r < distances@.len() && r % step == 0 implies r == 0 by {
                vstd::arithmetic::div_mod::lemma_small_mod(r as nat, step as nat);
            }
            vstd::arithmetic::div_mod::lemma_mod_self_0(step);
        }
        while i < distances.len()
            invariant
                1 <= distances@.len() <= 65536,
                1 <= search_every <= 65536,
                i % search_every == 0,
                best_i < distances@.len(),
                best_i < i,
                best_i % search_every == 0,
                best == distances@[best_i as int],
                forall|r: int|
                    0 <= r < i && r < distances@.len() && r % (search_every as int) == 0 ==> {
                        &&& best <= #[trigger] distances@[r]
                        &&& r < best_i ==> best < distances@[r]
                    },
            decreases distances@.len() + search_every - i,
        {
            let d: u16 = distances[i];
            if d < best {
                best = d;
                best_i = i;
            }
            proof {
                let (step, at) = (search_every as int, i as int);
                assert forall|r: int|
                    #![trigger distances@[r]]
                    at < r < at + step && r < distances@.len() implies r % step != 0 by {
                    vstd::arithmetic::div_mod::lemma_fundamental_div_mod(at, step);
                    let q = at / step;
                    assert(step * q == q * step) by (nonlinear_arith);
                    vstd::arithmetic::div_mod::lemma_fundamental_div_mod_converse(
                        r,
                        step,
                        q,
                        r - at,
                    );
                }
                vstd::arithmetic::div_mod::lemma_mod_add_multiples_vanish(at, step);
            }
            i = i + search_every;
        }
        best_i as u16
    }

    /// Subtracts the metric of `least_register` from all of them, so that they stay
    /// within 16 bits as they accumulate across the message. Where it is the least
    /// of them, every difference is kept.
    pub fn renormalize(&self, distances: &mut [u16], least_register: u16)
        requires
            least_register < old(distances)@.len(),
        ensures
            final(distances)@.len() == old(distances)@.len(),
            forall|i: int|
                0 <= i < old(distances)@.len() ==> #[trigger] final(distances)@[i] == old(
                    distances,
                )@[i].wrapping_sub(old(distances)@[least_register as int]),
            forall|i: int|
                0 <= i < old(distances)@.len() && old(distances)@[least_register as int] <= old(
                    distances,
                )@[i] ==> #[trigger] final(distances)@[i] == old(distances)@[i] - old(
                    distances,
                )@[least_register as int],
    {
        let ghost before = distances@;
        let min_distance: u16 = distances[least_register as usize];
        let mut i: usize = 0;
        while i < distances.len()
            invariant
                i <= distances@.len(),
                distances@.len() == before.len(),
                forall|k: int|
                    0 <= k < i ==> #[trigger] distances@[k] == before[k].wrapping_sub(
                        min_distance,
                    ),
                forall|k: int| i <= k < distances@.len() ==> #[trigger] distances@[k] == before[k],
            decreases distances@.len() - i,
        {
            distances[i] = distances[i].wrapping_sub(min_distance);
            i = i + 1;
        }
    }

    /// Walks back from `init_best_path` through the recorded decisions. The most
    /// recent `min_traceback_length` are passed over; the others are the
    /// message's bits, and are written out.
    #[verifier::rlimit(40)]
    pub fn traceback(
        &mut self,
        init_best_path: u16,
        min_traceback_length: usize,
        bit_writer: &mut BitWriter,
        Ghost(run): Ghost<Run>,
        Ghost(rows): Ghost<int>,
        Ghost(start): Ghost<int>,
    )
        requires
            run.valid(),
            old(self).fits(run.code),
            0 <= start < rows <= run.rows(),
            rows - start <= old(self).capacity(),
            old(self).pending(run, rows, start),
            min_traceback_length <= rows - start,
            run.kept(run.head() + rows - 1, init_best_path as int),
            old(bit_writer).wf(),
            old(bit_writer).bits().len() + (rows - start) < 8 * old(bit_writer).buf@.len() + 8,
        ensures
            final(self).fits(run.code),
            final(self).slack() == old(self).slack(),
            final(self).pending(run, rows, rows - min_traceback_length),
            final(bit_writer).wf(),
            final(bit_writer).bits() == old(bit_writer).bits() + run.code.survivor(
                run.cost,
                (run.head() + rows) as nat,
                init_best_path as int,
            ).subrange(start, rows - min_traceback_length),
            final(bit_writer).buf@.len() == old(bit_writer).buf@.len(),
            final(final(bit_writer).buf)@ == final(old(bit_writer).buf)@,
    {
        let ghost before = *self;
        let ghost cap = self.history_cap as int;
        let ghost n = self.num_states as int;
        let ghost head = run.head() as int;
        let ghost whole = run.code.survivor(
            run.cost,
            (head + rows) as nat,
            init_best_path as int,
        );
        proof {
            util::lemma_pow2_16((run.code.order - 1) as nat);
            lemma_ring_size(cap, n);
            run.code.lemma_survivor(run.cost, (head + rows) as nat, init_best_path as int);
            assert(whole.take(head + rows) =~= whole);
        }
        let num_rows: usize = self.history_len;
        let num_decodes: usize = num_rows - min_traceback_length;
        let mut index: usize = self.history_index;
        let mut best_path: u16 = init_best_path;
        let ghost mut i = rows;
        let mut left: usize = num_rows;
        while left > 0
            invariant
                run.valid(),
                self.fits(run.code),
                before.fits(run.code),
                before.pending(run, rows, start),
                *self == (ConvolutionalHistoryTable { decode_buf: self.decode_buf, ..before }),
                cap == self.history_cap,
                n == self.num_states,
                n == run.code.num_states(),
                n <= 65536,
                cap * n <= 58982400,
                head == run.head(),
                0 <= start <= i <= rows <= run.rows(),
                rows - start <= cap,
                left == i - start,
                num_rows == rows - start,
                num_decodes == num_rows - min_traceback_length,
                min_traceback_length <= num_rows,
                index == i % cap,
                run.kept(head + i - 1, best_path as int),
                whole.len() == head + rows,
                whole == run.code.survivor(
                    run.cost,
                    (head + rows) as nat,
                    init_best_path as int,
                ),
                whole.take(head + i) == run.code.survivor(
                    run.cost,
                    (head + i) as nat,
                    best_path as int,
                ),
                forall|k: int|
                    left <= k < num_decodes ==> (#[trigger] self.decode_buf@[k]) <= 1 && (
                    self.decode_buf@[k] == 1) == whole[start + k],
            decreases left,
        {
            index = if index == 0 {
                self.history_cap - 1
            } else {
                index - 1
            };
            let ghost r = i - 1;
            let ghost t = (head + r) as nat;
            proof {
                lemma_ring_next(r, cap);
                vstd::arithmetic::div_mod::lemma_mod_bound(r, cap);
                lemma_row_bound(r % cap, best_path as int, n, cap);
                assert(before.decision(r, best_path as int) == took_high(
                    run,
                    t as int,
                    best_path as int,
                ));
            }
            let high: bool = self.history[index * self.num_states + best_path as usize] != 0;
            let bit: u8 = if high {
                1
            } else {
                0
            };
            let reg_bit: u32 = if high {
                self.highbit as u32
            } else {
                0
            };
            proof {
                lemma_choice_bit(run, t, best_path as int);
                lemma_kept_previous(run, t as int, best_path as int, bit as int);
                lemma_pow2_unfold((run.code.order - 1) as nat);
                run.code.lemma_survivor(run.cost, t + 1, best_path as int);
                assert(whole.take(head + i)[r] == whole[r]);
                assert(whole.take(head + i).take(t as int) =~= whole.take(head + r));
                assert(bit * n == 0 || bit * n == n) by (nonlinear_arith)
                    requires
                        bit == 0 || bit == 1,
                ;
                assert(bit * pow2((run.code.order - 2) as nat) == if bit == 0 {
                    0
                } else {
                    pow2((run.code.order - 2) as nat) as int
                }) by (nonlinear_arith)
                    requires
                        bit == 0 || bit == 1,
                ;
            }
            left = left - 1;
            if left < num_decodes {
                self.decode_buf[left] = bit;
            }
            best_path = ((best_path as u32 + reg_bit) / 2) as u16;
            proof {
                i = r;
            }
        }
        let ghost written = bit_writer.bits();
        let mut out: Vec<u8> = Vec::with_capacity(num_decodes);
        let mut k: usize = 0;
        while k < num_decodes
            invariant
                k <= num_decodes <= self.decode_buf@.len(),
                out@ == self.decode_buf@.take(k as int),
            decreases num_decodes - k,
        {
            out.push(self.decode_buf[k]);
            k = k + 1;
            assert(out@ =~= self.decode_buf@.take(k as int));
        }
        bit_writer.write_iter(&out);
        proof {
            let bits = Seq::new(out@.len(), |j: int| out@[j] == 1);
            assert(bits =~= whole.subrange(start, rows - min_traceback_length));
        }
        self.history_len = self.history_len - num_decodes;
        proof {
            assert forall|r: int, s: int|
                rows - min_traceback_length <= r < rows && run.kept(
                    head + r,
                    s,
                ) implies #[trigger] self.decision(r, s) == took_high(run, head + r, s) by {
                assert(before.decision(r, s) == took_high(run, head + r, s));
            }
        }
    }

    /// How many rows the ring has.
    pub closed spec fn capacity(self) -> int {
        self.history_cap as int
    }

    /// The ring holds the decisions of rows `start..rows`.
    pub closed spec fn pending(self, run: Run, rows: int, start: int) -> bool {
        &&& self.history_len == rows - start
        &&& self.history_index == rows % (self.history_cap as int)
        &&& self.renormalize_counter < self.renormalize_interval
        &&& forall|r: int, s: int|
            start <= r < rows && run.kept(run.head() + r, s) ==> #[trigger] self.decision(r, s)
                == took_high(run, run.head() + r, s)
    }

    /// `rows` decisions have been made and the last row was just closed: it may be
    /// time to pull the metrics down, and the ring may be full.
    pub closed spec fn advanced(self, run: Run, rows: int, start: int) -> bool {
        &&& run.valid()
        &&& self.fits(run.code)
        &&& 0 <= start < rows <= run.rows()
        &&& start % run.group() == 0
        &&& rows - start <= self.history_cap
        &&& self.history_len == rows - start
        &&& self.history_index == rows % (self.history_cap as int)
        &&& 1 <= self.renormalize_counter <= self.renormalize_interval
        &&& forall|r: int, s: int|
            start <= r < rows && run.kept(run.head() + r, s) ==> #[trigger] self.decision(r, s)
                == took_high(run, run.head() + r, s)
    }

    /// Closes the row that was just filled, and says whether there is more to do.
    pub fn advance_history(&mut self, Ghost(run): Ghost<Run>, Ghost(rows): Ghost<int>, Ghost(
        start,
    ): Ghost<int>) -> (due: bool)
        requires
            old(self).holds(run, rows, start),
            rows < run.rows(),
            forall|s: int|
                run.kept(run.head() + rows, s) ==> #[trigger] old(self).recorded(run, rows, s),
        ensures
            final(self).advanced(run, rows + 1, start),
            final(self).slack() == old(self).slack() + 1,
            !due ==> final(self).holds(run, rows + 1, start),
    {
        let ghost before = *self;
        let ghost done = rows + 1;
        proof {
            lemma_ring_next(rows, self.history_cap as int);
            lemma_metrics_fit(run, self.slack());
        }
        self.history_index = self.history_index + 1;
        if self.history_index == self.history_cap {
            self.history_index = 0;
        }
        self.renormalize_counter = self.renormalize_counter + 1;
        self.history_len = self.history_len + 1;
        proof {
            assert forall|r: int, s: int|
                start <= r < done && run.kept(run.head() + r, s) implies #[trigger] self.decision(
                r,
                s,
            ) == took_high(run, run.head() + r, s) by {
                if r < rows {
                    assert(before.decision(r, s) == took_high(run, run.head() + r, s));
                } else {
                    assert(before.recorded(run, rows, s));
                }
            }
        }
        self.renormalize_counter == self.renormalize_interval || self.history_len
            == self.history_cap
    }

    /// Pulls the metrics down when it is time, and traces back when the ring is
    /// full.
    #[verifier::rlimit(40)]
    pub fn process_history_advance(
        &mut self,
        step: usize,
        distances: &mut [u16],
        bit_writer: &mut BitWriter,
        Ghost(run): Ghost<Run>,
        Ghost(rows): Ghost<int>,
        Ghost(start): Ghost<int>,
    ) -> (next: Ghost<int>)
        requires
            old(self).advanced(run, rows, start),
            step == run.step_at(run.head() + rows - 1),
            tracks(run, (run.head() + rows) as nat, old(distances)@, old(self).slack()),
            old(bit_writer).wf(),
            old(bit_writer).bits().len() == start,
            forall|r: int|
                0 <= r < start ==> #[trigger] old(bit_writer).bits()[r] == run.decoded_bit(r),
            run.rows() < 8 * old(bit_writer).buf@.len() + 8,
        ensures
            final(self).holds(run, rows, next@),
            tracks(run, (run.head() + rows) as nat, final(distances)@, final(self).slack()),
            final(bit_writer).wf(),
            final(bit_writer).bits().len() == next@,
            forall|r: int|
                0 <= r < next@ ==> #[trigger] final(bit_writer).bits()[r] == run.decoded_bit(r),
            final(bit_writer).buf@.len() == old(bit_writer).buf@.len(),
            final(final(bit_writer).buf)@ == final(old(bit_writer).buf)@,
    {
        let ghost before = *self;
        let ghost t = (run.head() + rows) as nat;
        let ghost slack = self.slack();
        let ghost g = run.group();
        let ghost old_bits = bit_writer.bits();
        proof {
            util::lemma_pow2_16((run.code.order - 1) as nat);
            lemma_step_bound(run, t - 1);
            lemma_metrics_fit(run, slack);
            lemma_best_exists(run, rows);
        }
        let renormalize_due: bool = self.renormalize_counter == self.renormalize_interval;
        let traceback_due: bool = self.history_len == self.history_cap;
        if renormalize_due {
            self.renormalize_counter = 0;
        }
        proof {
            assert forall|r: int, s: int|
                start <= r < rows && run.kept(run.head() + r, s) implies #[trigger] self.decision(
                r,
                s,
            ) == took_high(run, run.head() + r, s) by {
                assert(before.decision(r, s) == took_high(run, run.head() + r, s));
            }
        }
        if !renormalize_due && !traceback_due {
            return Ghost(start);
        }
        // the search is shared between the two uses
        let best_path: u16 = self.least_error_path(distances, step);
        proof {
            lemma_least_is_best(run, t, distances@, slack, best_path as int);
            lemma_best_unique(run, rows, best_path as int);
        }
        if renormalize_due {
            let ghost before = distances@;
            self.renormalize(distances, best_path);
            proof {
                lemma_renormalized(run, t, before, distances@, slack, best_path as int);
            }
        }
        if !traceback_due {
            return Ghost(start);
        }
        let settle: usize = self.min_traceback_length;
        self.traceback(
            best_path,
            settle,
            bit_writer,
            Ghost(run),
            Ghost(rows),
            Ghost(start),
        );
        proof {
            let next = rows - settle;
            assert(next == start + g);
            run.code.lemma_survivor(run.cost, t, best_path as int);
            vstd::arithmetic::div_mod::lemma_mod_add_multiples_vanish(start, g);
            assert forall|r: int| 0 <= r < next implies #[trigger] bit_writer.bits()[r]
                == run.decoded_bit(r) by {
                if r < start {
                    assert(bit_writer.bits()[r] == old_bits[r]);
                } else {
                    lemma_group_of(r, start, g);
                    assert(run.traceback_for(r) == rows);
                    let path = run.code.survivor(run.cost, t, best_path as int);
                    assert(run.path_for(r) == path);
                    assert(bit_writer.bits()[r] == path.subrange(start, next)[r - start]);
                }
            }
        }
        Ghost(start + g)
    }

    /// Closes the row that was just filled, pulls the metrics down when it is
    /// time, and traces back when the ring is full.
    pub fn process_step(
        &mut self,
        step: usize,
        distances: &mut [u16],
        bit_writer: &mut BitWriter,
        Ghost(run): Ghost<Run>,
        Ghost(rows): Ghost<int>,
        Ghost(start): Ghost<int>,
    ) -> (next: Ghost<int>)
        requires
            old(self).holds(run, rows, start),
            rows < run.rows(),
            step == run.step_at(run.head() + rows),
            forall|s: int|
                run.kept(run.head() + rows, s) ==> #[trigger] old(self).recorded(run, rows, s),
            tracks(run, (run.head() + rows + 1) as nat, old(distances)@, old(self).slack() + 1),
            old(bit_writer).wf(),
            old(bit_writer).bits().len() == start,
            forall|r: int|
                0 <= r < start ==> #[trigger] old(bit_writer).bits()[r] == run.decoded_bit(r),
            run.rows() < 8 * old(bit_writer).buf@.len() + 8,
        ensures
            final(self).holds(run, rows + 1, next@),
            tracks(run, (run.head() + rows + 1) as nat, final(distances)@, final(self).slack()),
            final(bit_writer).wf(),
            final(bit_writer).bits().len() == next@,
            forall|r: int|
                0 <= r < next@ ==> #[trigger] final(bit_writer).bits()[r] == run.decoded_bit(r),
            final(bit_writer).buf@.len() == old(bit_writer).buf@.len(),
            final(final(bit_writer).buf)@ == final(old(bit_writer).buf)@,
    {
        let due: bool = self.advance_history(Ghost(run), Ghost(rows), Ghost(start));
        if due {
            self.process_history_advance(
                step,
                distances,
                bit_writer,
                Ghost(run),
                Ghost(rows + 1),
                Ghost(start),
            )
        } else {
            Ghost(start)
        }
    }

    /// Closes a row in which every state counts.
    pub fn process(
        &mut self,
        distances: &mut [u16],
        bit_writer: &mut BitWriter,
        Ghost(run): Ghost<Run>,
        Ghost(rows): Ghost<int>,
        Ghost(start): Ghost<int>,
    ) -> (next: Ghost<int>)
        requires
            old(self).holds(run, rows, start),
            rows < run.rows(),
            run.step_at(run.head() + rows) == 1,
            forall|s: int|
                run.kept(run.head() + rows, s) ==> #[trigger] old(self).recorded(run, rows, s),
            tracks(run, (run.head() + rows + 1) as nat, old(distances)@, old(self).slack() + 1),
            old(bit_writer).wf(),
            old(bit_writer).bits().len() == start,
            forall|r: int|
                0 <= r < start ==> #[trigger] old(bit_writer).bits()[r] == run.decoded_bit(r),
            run.rows() < 8 * old(bit_writer).buf@.len() + 8,
        ensures
            final(self).holds(run, rows + 1, next@),
            tracks(run, (run.head() + rows + 1) as nat, final(distances)@, final(self).slack()),
            final(bit_writer).wf(),
            final(bit_writer).bits().len() == next@,
            forall|r: int|
                0 <= r < next@ ==> #[trigger] final(bit_writer).bits()[r] == run.decoded_bit(r),
            final(bit_writer).buf@.len() == old(bit_writer).buf@.len(),
            final(final(bit_writer).buf)@ == final(old(bit_writer).buf)@,
    {
        self.process_step(1, distances, bit_writer, Ghost(run), Ghost(rows), Ghost(start))
    }

    /// Traces back whatever the ring still holds, from the zero state.
    pub fn flush(
        &mut self,
        bit_writer: &mut BitWriter,
        Ghost(run): Ghost<Run>,
        Ghost(start): Ghost<int>,
    )
        requires
            old(self).holds(run, run.rows() as int, start),
            old(bit_writer).wf(),
            old(bit_writer).bits().len() == start,
            forall|r: int|
                0 <= r < start ==> #[trigger] old(bit_writer).bits()[r] == run.decoded_bit(r),
            run.rows() < 8 * old(bit_writer).buf@.len() + 8,
        ensures
            final(self).fits(run.code),
            final(bit_writer).wf(),
            final(bit_writer).bits() == Seq::new(run.rows(), |r: int| run.decoded_bit(r)),
            final(bit_writer).buf@.len() == old(bit_writer).buf@.len(),
            final(final(bit_writer).buf)@ == final(old(bit_writer).buf)@,
    {
        let ghost rows = run.rows() as int;
        let ghost g = run.group();
        let ghost old_bits = bit_writer.bits();
        if self.history_len > 0 {
            proof {
                lemma_pow2_pos(run.head());
                lemma_step_positive(run, run.total - 1);
                vstd::arithmetic::div_mod::lemma_small_mod(
                    0,
                    run.step_at(run.total - 1) as nat,
                );
            }
            self.traceback(0, 0, bit_writer, Ghost(run), Ghost(rows), Ghost(start));
        }
        proof {
            let all = Seq::new(run.rows(), |r: int| run.decoded_bit(r));
            lemma_pow2_pos(run.head());
            run.code.lemma_survivor(run.cost, run.total, 0);
            assert forall|r: int| 0 <= r < rows implies #[trigger] bit_writer.bits()[r] == all[r] by {
                if r < start {
                    assert(bit_writer.bits()[r] == old_bits[r]);
                } else {
                    lemma_group_above(r, start, g);
                    assert(run.traceback_for(r) > rows);
                }
            }
            assert(bit_writer.bits() =~= all);
        }
    }

    /// Forgets everything recorded.
    pub fn reset(&mut self, Ghost(code): Ghost<Trellis>)
        requires
            old(self).fits(code),
        ensures
            final(self).fits(code),
            final(self).is_reset(),
    {
        self.history_len = 0;
        self.history_index = 0;
        self.renormalize_counter = 0;
    }
}

/// Copies the flags.
#[inline(always)]
fn copy_flags(part: &mut [u8], flags: &[u8])
    requires
        old(part)@.len() == flags@.len(),
    ensures
        final(part)@ == flags@,
{
    let mut k: usize = 0;
    while k < flags.len()
        invariant
            k <= flags@.len(),
            part@.len() == flags@.len(),
            forall|j: int| 0 <= j < k ==> #[trigger] part@[j] == flags@[j],
        decreases flags@.len() - k,
    {
        part[k] = flags[k];
        k = k + 1;
    }
}

/// Flags where `low` is greater than `high`.
#[inline(always)]
fn flag_greater(part: &mut [u8], low: &[u16], high: &[u16])
    requires
        old(part)@.len() == low@.len() == high@.len(),
    ensures
        final(part)@.len() == low@.len(),
        forall|j: int|
            0 <= j < low@.len() ==> (#[trigger] final(part)@[j] != 0) == (low@[j] > high@[j]),
{
    let n: usize = low.len();
    // the lengths are equal, and the subrange tells the compiler so
    let high: &[u16] = slice_subrange(high, 0, n);
    let mut k: usize = 0;
    while k < n
        invariant
            k <= n,
            part@.len() == low@.len() == high@.len() == n,
            forall|j: int| 0 <= j < k ==> (#[trigger] part@[j] != 0) == (low@[j] > high@[j]),
        decreases n - k,
    {
        part[k] = (low[k] > high[k]) as u8;
        k = k + 1;
    }
}

impl ConvolutionalHistoryTable {
    /// Records the decisions for the states from `s` on in the row being filled.
    #[inline(always)]
    pub fn record_flags(
        &mut self,
        s: usize,
        flags: &[u8],
        Ghost(run): Ghost<Run>,
        Ghost(rows): Ghost<int>,
        Ghost(start): Ghost<int>,
    )
        requires
            old(self).holds(run, rows, start),
            s + flags@.len() <= run.code.num_states(),
            forall|j: int|
                0 <= j < flags@.len() ==> (#[trigger] flags@[j] != 0) == took_high(
                    run,
                    run.head() + rows,
                    s + j,
                ),
        ensures
            final(self).holds(run, rows, start),
            final(self).slack() == old(self).slack(),
            forall|r: int| s <= r < s + flags@.len() ==> #[trigger] final(self).recorded(run, rows, r),
            forall|r: int|
                0 <= r < run.code.num_states() && old(self).recorded(run, rows, r)
                    ==> #[trigger] final(self).recorded(run, rows, r),
    {
        proof {
            self.lemma_has_row(run, rows, start);
        }
        let row = self.get_slice();
        let (_, rest) = row.split_at_mut(s);
        let (part, _) = rest.split_at_mut(flags.len());
        copy_flags(part, flags);
        proof {
            let filled = self.row();
            old(self).lemma_refilled(*self, filled, run, rows, start);
            assert forall|r: int| s <= r < s + flags@.len() implies #[trigger] self.recorded(
                run,
                rows,
                r,
            ) by {
                assert((flags@[r - s] != 0) == took_high(run, run.head() + rows, s + (r - s)));
            }
        }
    }

    /// Records the decisions for the states from `s` on: the oldest bit is set where
    /// `low` is greater than `high`.
    #[inline(always)]
    pub fn record_greater(
        &mut self,
        s: usize,
        low: &[u16],
        high: &[u16],
        Ghost(run): Ghost<Run>,
        Ghost(rows): Ghost<int>,
        Ghost(start): Ghost<int>,
    )
        requires
            old(self).holds(run, rows, start),
            low@.len() == high@.len(),
            s + low@.len() <= run.code.num_states(),
            forall|j: int|
                0 <= j < low@.len() ==> (#[trigger] low@[j] > high@[j]) == took_high(
                    run,
                    run.head() + rows,
                    s + j,
                ),
        ensures
            final(self).holds(run, rows, start),
            final(self).slack() == old(self).slack(),
            forall|r: int| s <= r < s + low@.len() ==> #[trigger] final(self).recorded(run, rows, r),
            forall|r: int|
                0 <= r < run.code.num_states() && old(self).recorded(run, rows, r)
                    ==> #[trigger] final(self).recorded(run, rows, r),
    {
        proof {
            self.lemma_has_row(run, rows, start);
        }
        let row = self.get_slice();
        let (_, rest) = row.split_at_mut(s);
        let (part, _) = rest.split_at_mut(low.len());
        flag_greater(part, low, high);
        proof {
            let filled = self.row();
            old(self).lemma_refilled(*self, filled, run, rows, start);
            assert forall|r: int| s <= r < s + low@.len() implies #[trigger] self.recorded(
                run,
                rows,
                r,
            ) by {
                assert((low@[r - s] > high@[r - s]) == took_high(
                    run,
                    run.head() + rows,
                    s + (r - s),
                ));
            }
        }
    }
}

/// A reset table holds nothing of a run that has not decided anything.
pub proof fn lemma_reset_holds(table: ConvolutionalHistoryTable, run: Run)
    requires
        run.valid(),
        table.fits(run.code),
        table.is_reset(),
    ensures
        table.holds(run, 0, 0),
        table.slack() == 0,
{
    lemma_metrics_fit(run, 0);
    vstd::arithmetic::div_mod::lemma_small_mod(0, run.group() as nat);
    vstd::arithmetic::div_mod::lemma_small_mod(0, run.capacity() as nat);
}

/// A table that holds a run fits its code.
pub proof fn lemma_holds_fits(
    table: ConvolutionalHistoryTable,
    run: Run,
    rows: int,
    start: int,
)
    requires
        table.holds(run, rows, start),
    ensures
        table.fits(run.code),
        0 <= start <= rows <= run.rows(),
        0 <= table.slack() < renorm_interval(run.code),
{
}

/// The least stored metric is the least true one.
proof fn lemma_least_is_best(run: Run, t: nat, errors: Seq<u16>, slack: int, i: int)
    requires
        run.valid(),
        run.head() < t <= run.total,
        tracks(run, t, errors, slack),
        is_least(errors, run.step_at(t - 1), i),
    ensures
        run.code.is_best(run.cost, t, run.step_at(t - 1), i),
{
    let base = choose|base: nat| #[trigger] tracks_from(run, t, errors, slack, base);
    let step = run.step_at(t - 1);
    assert(run.kept(t - 1, i));
    assert forall|r: int| 0 <= r < run.code.num_states() && r % step == 0 implies {
        &&& run.code.metric(run.cost, t, i) <= #[trigger] run.code.metric(run.cost, t, r)
        &&& r < i ==> run.code.metric(run.cost, t, i) < run.code.metric(run.cost, t, r)
    } by {
        assert(run.kept(t - 1, r));
        assert(errors[r] + base == run.code.metric(run.cost, t, r));
        assert(errors[i] + base == run.code.metric(run.cost, t, i));
    }
}

/// Steps between possible states stay small.
pub proof fn lemma_step_bound(run: Run, t: int)
    requires
        run.valid(),
        run.head() <= t < run.total,
    ensures
        1 <= run.step_at(t) <= 65536,
{
    lemma_step_positive(run, t);
    if t >= run.total - run.head() {
        util::lemma_pow2_16((t + 1 - (run.total - run.head())) as nat);
    }
}

/// Places in the group that starts at `start`.
proof fn lemma_group_of(r: int, start: int, g: int)
    requires
        0 <= start <= r < start + g,
        start % g == 0,
    ensures
        (r / g) * g == start,
{
    vstd::arithmetic::div_mod::lemma_fundamental_div_mod(start, g);
    let q = start / g;
    assert(start == q * g) by (nonlinear_arith)
        requires
            start == g * q + start % g,
            start % g == 0,
    ;
    vstd::arithmetic::div_mod::lemma_fundamental_div_mod_converse(r, g, q, r - start);
}

/// Places at or after a group's start belong to that group or a later one.
proof fn lemma_group_above(r: int, start: int, g: int)
    requires
        0 <= start <= r,
        g > 0,
        start % g == 0,
    ensures
        (r / g) * g >= start,
{
    vstd::arithmetic::div_mod::lemma_fundamental_div_mod(start, g);
    vstd::arithmetic::div_mod::lemma_div_is_ordered(start, r, g);
    let (q, p) = (start / g, r / g);
    assert(p * g >= start) by (nonlinear_arith)
        requires
            start == g * q + start % g,
            start % g == 0,
            p >= q,
            g > 0,
    ;
}

/// Subtracting the least metric moves the base and narrows the range.
proof fn lemma_renormalized(
    run: Run,
    t: nat,
    before: Seq<u16>,
    after: Seq<u16>,
    slack: int,
    least: int,
)
    requires
        run.valid(),
        run.head() < t <= run.total,
        0 <= slack <= renorm_interval(run.code),
        tracks(run, t, before, slack),
        run.code.is_best(run.cost, t, run.step_at(t - 1), least),
        after.len() == before.len(),
        forall|i: int|
            0 <= i < before.len() && before[least] <= before[i] ==> #[trigger] after[i] == before[i]
                - before[least],
    ensures
        tracks(run, t, after, 0),
{
    let base = choose|base: nat| #[trigger] tracks_from(run, t, before, slack, base);
    assert(run.kept(t - 1, least));
    let base2 = base + before[least] as nat;
    assert forall|s: int| run.kept(t - 1, s) implies {
        &&& #[trigger] after[s] + base2 == run.code.metric(run.cost, t, s)
        &&& after[s] <= (run.head() + 0) * run.code.max_dist()
    } by {
        assert(before[s] + base == run.code.metric(run.cost, t, s));
        assert(before[least] + base == run.code.metric(run.cost, t, least));
        assert(run.code.metric(run.cost, t, least) <= run.code.metric(run.cost, t, s));
        run.code.lemma_spread(run.cost, t, s, least);
    }
    assert(tracks_from(run, t, after, 0, base2));
}

/// The first place of the least metric. The least is found first, and then where
/// it is: both loops are simpler than one that keeps track of the place.
fn first_least(distances: &[u16]) -> (best: u16)
    requires
        1 <= distances@.len() <= 65536,
    ensures
        is_least(distances@, 1, best as int),
{
    let mut least: u16 = u16::MAX;
    let mut i: usize = 0;
    while i < distances.len()
        invariant
            i <= distances@.len(),
            forall|r: int| 0 <= r < i ==> least <= #[trigger] distances@[r],
            least == u16::MAX || exists|r: int| 0 <= r < i && #[trigger] distances@[r] == least,
        decreases distances@.len() - i,
    {
        let d: u16 = distances[i];
        least = if d < least {
            d
        } else {
            least
        };
        i = i + 1;
    }
    proof {
        // even if every metric were the largest, the first would do
        assert(exists|r: int| 0 <= r < distances@.len() && #[trigger] distances@[r] == least) by {
            if least == u16::MAX {
                assert(least <= distances@[0]);
            }
        }
    }
    let mut at: usize = 0;
    while at < distances.len() && distances[at] != least
        invariant
            at <= distances@.len() <= 65536,
            forall|r: int| 0 <= r < distances@.len() ==> least <= #[trigger] distances@[r],
            forall|r: int| 0 <= r < at ==> #[trigger] distances@[r] != least,
            exists|r: int| 0 <= r < distances@.len() && #[trigger] distances@[r] == least,
        decreases distances@.len() - at,
    {
        at = at + 1;
    }
    at as u16
}

} // verus!
