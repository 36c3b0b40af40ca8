//! The free distance of a code: a shortest-path search with a queue for each
//! weight, going backwards from the zero state.

use super::gf2::{coprime, lemma_add_halves, lemma_mul_one, poly_mul};
use super::walk::{lemma_input_bounds_free_distance, Graph};
use super::weight::{
    combines, input_weight, is_catastrophic, lemma_state_weight_bound, output_weight_for_input,
    output_weight_for_state, state_weight,
};
use crate::convolutional::trellis::{bit_value, dot};
use crate::convolutional::util;
use crate::convolutional::util::{lemma_dot_zero, lemma_pow2_16, ones};
use vstd::arithmetic::power2::{lemma2_to64, lemma_pow2_pos, lemma_pow2_strictly_increases, lemma_pow2_unfold, pow2};
use vstd::prelude::*;

verus! {

/// Even inputs are odd ones, delayed, so only odd ones are tried.
pub open spec fn is_tried(u: nat, limit: nat) -> bool {
    u < limit && u % 2 == 1
}

/// How many inputs are tried: a few where there is no goal, more where there is
/// one.
pub open spec fn trial_limit(order: nat, min_bound: Option<u32>) -> nat {
    match min_bound {
        Some(_) => if order <= 3 {
            2
        } else {
            pow2((order - 2) as nat)
        },
        None => 64,
    }
}

/// `r` is the weight of the input `u`: the first that falls short of the goal, or
/// the lightest of all where none does.
pub open spec fn is_bound(
    polys: Seq<u16>,
    limit: nat,
    min_bound: Option<u32>,
    u: nat,
    r: nat,
) -> bool {
    &&& is_tried(u, limit)
    &&& r == input_weight(polys, u, polys.len())
    &&& if min_bound is Some && r < min_bound->0 {
        forall|v: nat|
            #[trigger] is_tried(v, u) ==> input_weight(polys, v, polys.len()) >= min_bound->0
    } else {
        forall|v: nat|
            #[trigger] is_tried(v, limit) ==> r <= input_weight(polys, v, polys.len())
    }
}

/// Tries some inputs for a conservative upper bound on the free distance. Where
/// there is a goal to meet, stops at the first input that shows it is missed.
pub fn free_distance_bound(polys: &[u16], order: u32, min_bound: Option<u32>) -> (bound: u32)
    requires
        order <= 16,
        polys@.len() <= 0x0400_0000,
    ensures
        exists|u: nat|
            #[trigger] is_bound(
                polys@,
                trial_limit(order as nat, min_bound),
                min_bound,
                u,
                bound as nat,
            ),
        min_bound is None ==> forall|v: nat|
            v < 64 && v % 2 == 1 ==> bound <= #[trigger] input_weight(polys@, v, polys@.len()),
        min_bound is None ==> exists|u: nat|
            u < 64 && u % 2 == 1 && bound == #[trigger] input_weight(polys@, u, polys@.len()),
        min_bound matches Some(goal) ==> exists|u: nat|
            u % 2 == 1 && (u == 1 || (order > 3 && u < pow2((order - 2) as nat))) && bound
                == #[trigger] input_weight(polys@, u, polys@.len()),
        min_bound matches Some(goal) ==> (bound >= goal <==> forall|v: nat|
            #![trigger input_weight(polys@, v, polys@.len())]
            v % 2 == 1 && (v == 1 || (order > 3 && v < pow2((order - 2) as nat))) ==> input_weight(
                polys@,
                v,
                polys@.len(),
            ) >= goal),
{
    let max_input: u32 = match min_bound {
        Some(_) => if order <= 3 {
            2
        } else {
            util::num_states_for_order(order - 2)
        },
        None => 64,
    };
    let ghost limit = trial_limit(order as nat, min_bound);
    let ghost n = polys@.len();
    proof {
        lemma2_to64();
        if order > 3 {
            lemma_pow2_16((order - 2) as nat);
            lemma_pow2_unfold((order - 2) as nat);
            lemma_pow2_pos((order - 3) as nat);
        }
    }
    let mut min_weight: u32 = output_weight_for_input(1, polys);
    let ghost mut least: nat = 1;
    let mut u: u32 = 1;
    let mut missed: bool = match min_bound {
        Some(bound) => min_weight < bound,
        None => false,
    };
    assert forall|v: nat| #[trigger] is_tried(v, 3) implies v == 1 by {}
    while !missed && u + 2 < max_input
        invariant
            u % 2 == 1,
            u < max_input <= 65536,
            max_input == limit,
            max_input >= 2,
            n == polys@.len() <= 0x0400_0000,
            is_tried(least, limit),
            least <= u,
            min_weight == input_weight(polys@, least, n),
            missed == (min_bound is Some && min_weight < min_bound->0),
            !missed ==> forall|v: nat|
                #[trigger] is_tried(v, (u + 2) as nat) ==> min_weight <= input_weight(
                    polys@,
                    v,
                    n,
                ),
            missed ==> forall|v: nat|
                #[trigger] is_tried(v, least) ==> input_weight(polys@, v, n) >= min_bound->0,
        decreases max_input - u,
    {
        let ghost old_min = min_weight;
        let ghost old_u = u;
        u = u + 2;
        let weight: u32 = output_weight_for_input(u, polys);
        proof {
            assert forall|v: nat| #[trigger] is_tried(v, u as nat) implies old_min <= input_weight(
                polys@,
                v,
                n,
            ) by {
                assert(is_tried(v, (old_u + 2) as nat));
            }
            assert forall|v: nat| #[trigger] is_tried(v, (u + 2) as nat) implies v == u || is_tried(
                v,
                u as nat,
            ) by {}
        }
        if weight < min_weight {
            min_weight = weight;
            proof {
                least = u as nat;
            }
        }
        missed = match min_bound {
            Some(bound) => weight < bound,
            None => false,
        };
        proof {
            if missed {
                assert(min_weight == weight && least == u);
            }
        }
    }
    proof {
        if !missed {
            assert forall|v: nat| #[trigger] is_tried(v, limit) implies min_weight <= input_weight(
                polys@,
                v,
                n,
            ) by {
                assert(is_tried(v, (u + 2) as nat));
            }
        }
        assert(is_bound(polys@, limit, min_bound, least, min_weight as nat));
        assert forall|v: nat|
            #![trigger input_weight(polys@, v, n)]
            is_tried(v, limit) && !missed implies min_weight <= input_weight(polys@, v, n) by {}
        assert(input_weight(polys@, least, n) == min_weight);
    }
    min_weight
}

/// An odd input's output weighs at least what the first step puts out.
proof fn lemma_first_step(polys: Seq<u16>, u: nat, n: nat)
    requires
        u % 2 == 1,
        n <= polys.len(),
    ensures
        state_weight(polys, 1, n) <= input_weight(polys, u, n),
    decreases n,
{
    if n > 0 {
        lemma_first_step(polys, u, (n - 1) as nat);
        let g = polys[n - 1] as nat;
        let p = poly_mul(u, g);
        lemma_add_halves(g, 2 * poly_mul(u / 2, g));
        assert(p % 2 == g % 2);
        if g > 0 {
            assert(dot(1, g) == ((1nat % 2 == 1 && g % 2 == 1) != dot(0, g / 2)));
            lemma_dot_zero(g / 2);
        }
        if p > 0 {
            assert(ones(p) == p % 2 + ones(p / 2));
        }
    }
}

/// The input 1 weighs 16 per polynomial at most.
pub proof fn lemma_lightest(polys: Seq<u16>, n: nat)
    requires
        n <= polys.len(),
    ensures
        input_weight(polys, 1, n) <= 16 * n,
    decreases n,
{
    if n > 0 {
        lemma_lightest(polys, (n - 1) as nat);
        let g = polys[n - 1] as nat;
        lemma_mul_one(g);
        lemma2_to64();
        lemma_ones_bound(g, 16);
    }
}

proof fn lemma_ones_bound(x: nat, n: nat)
    requires
        x < pow2(n),
    ensures
        ones(x) <= n,
    decreases n,
{
    lemma2_to64();
    if n == 0 {
        assert(x == 0);
    } else {
        lemma_pow2_unfold(n);
        lemma_ones_bound(x / 2, (n - 1) as nat);
    }
}

impl Graph {
    /// A walk from `s` to zero that costs at most `cap` after its first step.
    pub open spec fn within(self, s: int, x: Seq<bool>, cap: int) -> bool {
        &&& x.len() > 0
        &&& self.end(s, x) == 0
        &&& self.cost(self.next(s, x[0]), x.drop_first()) <= cap
    }

    /// Some such walk costs `w`.
    pub open spec fn attains(self, s: int, w: int, cap: int) -> bool {
        exists|x: Seq<bool>| self.within(s, x, cap) && #[trigger] self.cost(s, x) == w
    }

    /// No such walk costs less than `w`.
    pub open spec fn undercuts(self, s: int, w: int, cap: int) -> bool {
        forall|x: Seq<bool>| #[trigger] self.within(s, x, cap) ==> w <= self.cost(s, x)
    }

    /// Neither predecessor of `q` has an entry above what going through `q`
    /// costs.
    pub open spec fn relaxed(self, table: Seq<u16>, q: int) -> bool {
        let h = pow2((self.order - 1) as nat);
        &&& table[q / 2] <= table[q] + self.weight(q)
        &&& table[q / 2 + h] <= table[q] + self.weight(q)
    }

    /// Every state with an entry up to `level` is relaxed.
    pub open spec fn closed_to(self, table: Seq<u16>, level: int) -> bool {
        &&& table.len() == self.num_states()
        &&& table[0] == 0
        &&& forall|q: int|
            0 <= q < self.num_states() && table[q] <= level ==> #[trigger] self.relaxed(table, q)
    }

    /// A state is a predecessor of the states that it can move to.
    proof fn lemma_predecessor(self, s: int, b: bool)
        requires
            self.valid(),
            0 <= s < self.num_states(),
        ensures
            ({
                let q = self.next(s, b);
                let h = pow2((self.order - 1) as nat);
                s == q / 2 || s == q / 2 + h
            }),
    {
        let n = self.num_states();
        let h = pow2((self.order - 1) as nat) as int;
        lemma_pow2_unfold(self.order);
        let v = 2 * s + bit_value(b);
        if s < h {
            vstd::arithmetic::div_mod::lemma_small_mod(v as nat, n as nat);
        } else {
            vstd::arithmetic::div_mod::lemma_fundamental_div_mod_converse(v, n, 1, v - n);
        }
    }

    /// Both predecessors of `q` move to it.
    proof fn lemma_successor(self, q: int, high: bool)
        requires
            self.valid(),
            0 <= q < self.num_states(),
        ensures
            ({
                let h = pow2((self.order - 1) as nat);
                let p = if high {
                    q / 2 + h
                } else {
                    q / 2
                };
                &&& 0 <= p < self.num_states()
                &&& self.next(p, q % 2 == 1) == q
            }),
    {
        let n = self.num_states();
        lemma_pow2_unfold(self.order);
        if high {
            vstd::arithmetic::div_mod::lemma_fundamental_div_mod_converse(q + n, n, 1, q);
        } else {
            vstd::arithmetic::div_mod::lemma_small_mod(q as nat, n as nat);
        }
    }

    /// In a closed table no entry is above the cost of a walk within the level.
    proof fn lemma_closed(self, table: Seq<u16>, level: int, s: int, x: Seq<bool>)
        requires
            self.valid(),
            self.closed_to(table, level),
            0 <= s < self.num_states(),
            self.end(s, x) == 0,
            self.cost(s, x) <= level,
        ensures
            table[s] <= self.cost(s, x),
        decreases x.len(),
    {
        if x.len() > 0 {
            self.lemma_first(s, x);
            self.lemma_next(s, x[0]);
            self.lemma_predecessor(s, x[0]);
            let q = self.next(s, x[0]);
            self.lemma_closed(table, level, q, x.drop_first());
            assert(self.relaxed(table, q));
        }
    }

    proof fn lemma_closed_within(self, table: Seq<u16>, level: int, s: int, x: Seq<bool>)
        requires
            self.valid(),
            self.closed_to(table, level),
            0 <= s < self.num_states(),
            self.within(s, x, level),
        ensures
            table[s] <= self.cost(s, x),
    {
        self.lemma_first(s, x);
        self.lemma_next(s, x[0]);
        self.lemma_predecessor(s, x[0]);
        let q = self.next(s, x[0]);
        self.lemma_closed(table, level, q, x.drop_first());
        assert(self.relaxed(table, q));
    }
}

/// State `s` waits in queue `k`, at place `from` or after.
pub open spec fn is_queued(queue: Seq<Vec<u32>>, k: int, s: int, from: int) -> bool {
    exists|j: int| from <= j < queue[k]@.len() && #[trigger] queue[k]@[j] == s
}

/// Entries are the costs of walks, or are missing.
spec fn is_sound(g: Graph, table: Seq<u16>, cap: int) -> bool {
    &&& table.len() == g.num_states()
    &&& table[0] == 0
    &&& forall|s: int|
        0 < s < g.num_states() && #[trigger] table[s] != u16::MAX ==> g.attains(
            s,
            table[s] as int,
            cap,
        )
}

/// The queues hold every state that is still to be looked at: those at `level`
/// from place `idx` on.
spec fn is_waiting(
    g: Graph,
    table: Seq<u16>,
    queue: Seq<Vec<u32>>,
    level: int,
    idx: int,
    cap: int,
) -> bool {
    &&& queue.len() == cap + 1
    &&& forall|k: int, j: int|
        0 <= k < queue.len() && 0 <= j < queue[k]@.len() ==> (#[trigger] queue[k]@[j])
            < g.num_states()
    &&& forall|s: int|
        0 <= s < g.num_states() && (#[trigger] table[s]) < level ==> g.relaxed(table, s)
    &&& forall|s: int|
        0 <= s < g.num_states() && #[trigger] table[s] == level ==> g.relaxed(table, s)
            || is_queued(queue, level, s, idx)
    &&& forall|s: int|
        0 <= s < g.num_states() && level < #[trigger] table[s] <= cap ==> is_queued(
            queue,
            table[s] as int,
            s,
            0,
        )
}

/// The sum of all entries.
spec fn total(table: Seq<u16>) -> nat
    decreases table.len(),
{
    if table.len() == 0 {
        0
    } else {
        total(table.drop_last()) + table.last() as nat
    }
}

proof fn lemma_total_update(table: Seq<u16>, i: int, v: u16)
    requires
        0 <= i < table.len(),
    ensures
        total(table.update(i, v)) == total(table) - table[i] + v,
    decreases table.len(),
{
    let t = table.update(i, v);
    if i == table.len() - 1 {
        assert(t.drop_last() =~= table.drop_last());
    } else {
        lemma_total_update(table.drop_last(), i, v);
        assert(t.drop_last() =~= table.drop_last().update(i, v));
    }
}

/// Lowers the entry of a predecessor of `state`, if going through `state` is
/// cheaper, and queues it.
fn relax(
    weight_to_zero: &mut Vec<u16>,
    weight_queue: &mut Vec<Vec<u32>>,
    pred: u32,
    pred_weight: u32,
    Ghost(g): Ghost<Graph>,
    Ghost(state): Ghost<int>,
    Ghost(high): Ghost<bool>,
    Ghost(level): Ghost<int>,
    Ghost(idx): Ghost<int>,
    Ghost(cap): Ghost<int>,
)
    requires
        g.valid(),
        0 <= state < g.num_states(),
        old(weight_to_zero)@.len() == g.num_states(),
        pred == state / 2 + if high {
            pow2((g.order - 1) as nat)
        } else {
            0
        },
        is_sound(g, old(weight_to_zero)@, cap),
        is_waiting(g, old(weight_to_zero)@, old(weight_queue)@, level, idx, cap),
        0 <= idx <= old(weight_queue)@[level]@.len(),
        old(weight_to_zero)@[state] == level,
        0 <= level <= cap,
        pred_weight == level + g.weight(state),
        cap + g.rate < 65535,
    ensures
        is_sound(g, final(weight_to_zero)@, cap),
        is_waiting(g, final(weight_to_zero)@, final(weight_queue)@, level, idx, cap),
        final(weight_to_zero)@[state] == level,
        final(weight_to_zero)@[pred as int] <= pred_weight,
        forall|s: int|
            0 <= s < g.num_states() ==> #[trigger] final(weight_to_zero)@[s] <= old(
                weight_to_zero,
            )@[s],
        final(weight_queue)@.len() == old(weight_queue)@.len(),
        forall|k: int|
            0 <= k < final(weight_queue)@.len() ==> old(weight_queue)@[k]@.is_prefix_of(
                #[trigger] final(weight_queue)@[k]@,
            ),
        final(weight_queue)@[level]@.len() == old(weight_queue)@[level]@.len() || total(
            final(weight_to_zero)@,
        ) < total(old(weight_to_zero)@),
        total(final(weight_to_zero)@) <= total(old(weight_to_zero)@),
{
    let ghost table = weight_to_zero@;
    let ghost queue = weight_queue@;
    proof {
        g.lemma_successor(state, high);
        lemma_state_weight_bound(g.polys, state, g.rate);
    }
    if pred_weight < weight_to_zero[pred as usize] as u32 {
        proof {
            lemma_total_update(table, pred as int, pred_weight as u16);
        }
        weight_to_zero[pred as usize] = pred_weight as u16;
        let ghost new_table = weight_to_zero@;
        proof {
            lemma_sound(g, table, new_table, cap, state, high, pred as int, pred_weight as int);
        }
        if (pred_weight as usize) < weight_queue.len() {
            weight_queue[pred_weight as usize].push(pred);
            proof {
                let k = pred_weight as int;
                let new_queue = weight_queue@;
                assert(new_queue[k]@ == queue[k]@.push(pred));
                assert(new_queue[k]@[queue[k]@.len() as int] == pred);
                assert(is_queued(new_queue, k, pred as int, 0));
                if k == level {
                    assert(is_queued(new_queue, k, pred as int, idx));
                }
                assert forall|m: int| 0 <= m < queue.len() implies queue[m]@.is_prefix_of(
                    #[trigger] new_queue[m]@,
                ) by {
                    if m != k {
                        assert(new_queue[m] == queue[m]);
                    }
                }
                assert forall|m: int, j: int|
                    0 <= m < new_queue.len() && 0 <= j < new_queue[m]@.len() implies (
                #[trigger] new_queue[m]@[j]) < g.num_states() by {
                    if m == k && j == queue[m]@.len() {
                    } else {
                        assert(new_queue[m]@[j] == queue[m]@[j]);
                    }
                }
            }
        }
        proof {
            lemma_waiting(
                g,
                table,
                new_table,
                queue,
                weight_queue@,
                level,
                idx,
                cap,
                pred as int,
                pred_weight as int,
            );
        }
    }
}

/// A state that waits still does when queues only grow.
proof fn lemma_still_queued(
    queue: Seq<Vec<u32>>,
    new_queue: Seq<Vec<u32>>,
    k: int,
    s: int,
    from: int,
)
    requires
        0 <= from,
        queue[k]@.is_prefix_of(new_queue[k]@),
        is_queued(queue, k, s, from),
    ensures
        is_queued(new_queue, k, s, from),
{
    let j = choose|j: int| from <= j < queue[k]@.len() && #[trigger] queue[k]@[j] == s;
    assert(new_queue[k]@[j] == s);
}

/// An entry lowered through a state that has one is the cost of a walk.
proof fn lemma_sound(
    g: Graph,
    table: Seq<u16>,
    new_table: Seq<u16>,
    cap: int,
    state: int,
    high: bool,
    pred: int,
    pred_weight: int,
)
    requires
        g.valid(),
        0 <= state < g.num_states(),
        is_sound(g, table, cap),
        table[state] <= cap < u16::MAX,
        pred == state / 2 + if high {
            pow2((g.order - 1) as nat)
        } else {
            0
        },
        pred_weight == table[state] + g.weight(state),
        0 <= pred_weight < table[pred],
        new_table == table.update(pred, pred_weight as u16),
    ensures
        is_sound(g, new_table, cap),
{
    g.lemma_successor(state, high);
    let b = state % 2 == 1;
    let level = table[state] as int;
    let y = if state == 0 {
        Seq::<bool>::empty()
    } else {
        choose|y: Seq<bool>| g.within(state, y, cap) && #[trigger] g.cost(state, y) == level
    };
    let x = seq![b] + y;
    g.lemma_prepend(pred, b, y);
    assert(x.drop_first() =~= y);
    assert(g.within(pred, x, cap));
    assert(g.cost(pred, x) == pred_weight);
    assert(g.attains(pred, pred_weight, cap));
    assert forall|s: int|
        0 < s < g.num_states() && #[trigger] new_table[s] != u16::MAX implies g.attains(
        s,
        new_table[s] as int,
        cap,
    ) by {
        if s != pred {
            assert(new_table[s] == table[s]);
        }
    }
}

/// Lowering an entry leaves everything waiting that should, if the state whose
/// entry it is waits itself.
proof fn lemma_waiting(
    g: Graph,
    table: Seq<u16>,
    new_table: Seq<u16>,
    queue: Seq<Vec<u32>>,
    new_queue: Seq<Vec<u32>>,
    level: int,
    idx: int,
    cap: int,
    pred: int,
    pred_weight: int,
)
    requires
        g.valid(),
        table.len() == g.num_states(),
        is_waiting(g, table, queue, level, idx, cap),
        0 <= level <= cap,
        0 <= idx,
        0 <= pred < g.num_states(),
        level <= pred_weight < table[pred],
        new_table == table.update(pred, pred_weight as u16),
        new_queue.len() == queue.len(),
        forall|m: int|
            0 <= m < queue.len() ==> queue[m]@.is_prefix_of(#[trigger] new_queue[m]@),
        forall|m: int, j: int|
            0 <= m < new_queue.len() && 0 <= j < new_queue[m]@.len() ==> (
            #[trigger] new_queue[m]@[j]) < g.num_states(),
        pred_weight <= cap ==> is_queued(new_queue, pred_weight, pred, 0),
        pred_weight == level ==> is_queued(new_queue, level, pred, idx),
    ensures
        is_waiting(g, new_table, new_queue, level, idx, cap),
{
    assert forall|q: int|
        0 <= q < g.num_states() && q != pred && g.relaxed(table, q) implies #[trigger] g.relaxed(
        new_table,
        q,
    ) by {
        g.lemma_successor(q, false);
        g.lemma_successor(q, true);
    }
    assert forall|s: int|
        0 <= s < g.num_states() && (#[trigger] new_table[s]) < level implies g.relaxed(
        new_table,
        s,
    ) by {
        assert(table[s] == new_table[s]);
    }
    assert forall|s: int|
        0 <= s < g.num_states() && #[trigger] new_table[s] == level implies g.relaxed(new_table, s)
        || is_queued(new_queue, level, s, idx) by {
        if s != pred {
            assert(table[s] == new_table[s]);
            if !g.relaxed(table, s) {
                assert(queue[level]@.is_prefix_of(new_queue[level]@));
                lemma_still_queued(queue, new_queue, level, s, idx);
            }
        }
    }
    assert forall|s: int|
        0 <= s < g.num_states() && level < #[trigger] new_table[s] <= cap implies is_queued(
        new_queue,
        new_table[s] as int,
        s,
        0,
    ) by {
        if s != pred {
            assert(table[s] == new_table[s]);
            let k = table[s] as int;
            assert(queue[k]@.is_prefix_of(new_queue[k]@));
            lemma_still_queued(queue, new_queue, k, s, 0);
        }
    }
}

/// When a queue has been worked off, the next one is up.
proof fn lemma_next_level(
    g: Graph,
    table: Seq<u16>,
    queue: Seq<Vec<u32>>,
    level: int,
    idx: int,
    cap: int,
)
    requires
        is_sound(g, table, cap),
        is_waiting(g, table, queue, level, idx, cap),
        0 <= level <= cap,
        idx == queue[level]@.len(),
    ensures
        g.closed_to(table, level),
        level < cap ==> is_waiting(g, table, queue, level + 1, 0, cap),
{
    assert forall|q: int|
        0 <= q < g.num_states() && table[q] <= level implies #[trigger] g.relaxed(table, q) by {
        if table[q] == level {
            assert(!is_queued(queue, level, q, idx));
        } else {
            assert(table[q] < level);
        }
    }
}

/// For each state the least weight of a walk to the zero state.
///
/// Goes backwards from the zero state, in order of increasing weight: weights are
/// never negative, so a predecessor weighs at least as much as its successor.
/// Walks are followed as long as they weigh `cap` at most. Stops early once the
/// entry of `target` is final. An entry of `u16::MAX` stands for a state that was
/// not reached.
pub fn shortest_output_weight_to_zero(
    order: u32,
    rate: u32,
    polys: &[u16],
    cap: u32,
    target: Option<u32>,
) -> (weights: Vec<u16>)
    requires
        1 <= order <= 16,
        polys@.len() == rate,
        cap + rate < 65535,
        target matches Some(t) ==> t < pow2(order as nat),
    ensures
        ({
            let g = Graph { rate: rate as nat, order: order as nat, polys: polys@ };
            &&& weights@.len() == g.num_states()
            &&& weights@[0] == 0
            &&& forall|s: int|
                0 < s < g.num_states() && #[trigger] weights@[s] != u16::MAX ==> g.attains(
                    s,
                    weights@[s] as int,
                    cap as int,
                )
            &&& match target {
                Some(t) => g.undercuts(t as int, weights@[t as int] as int, cap as int),
                None => forall|s: int|
                    0 <= s < g.num_states() ==> g.undercuts(
                        s,
                        #[trigger] weights@[s] as int,
                        cap as int,
                    ),
            }
        }),
{
    let ghost g = Graph { rate: rate as nat, order: order as nat, polys: polys@ };
    let ghost n = g.num_states();
    proof {
        lemma_pow2_16(order as nat);
        lemma_pow2_unfold(order as nat);
        lemma_pow2_pos((order - 1) as nat);
    }
    let num_states: usize = util::num_states_for_order(order) as usize;
    let top_bit: u32 = util::num_states_for_order(order - 1);
    let mut weight_to_zero: Vec<u16> = vec![u16::MAX; num_states];
    weight_to_zero[0] = 0;
    let mut weight_queue: Vec<Vec<u32>> = Vec::with_capacity(cap as usize + 1);
    let mut k: u32 = 0;
    while k <= cap
        invariant
            k <= cap + 1,
            cap < 65535,
            weight_queue@.len() == k,
            forall|i: int| 0 <= i < k ==> (#[trigger] weight_queue@[i])@.len() == 0,
        decreases cap + 1 - k,
    {
        weight_queue.push(Vec::new());
        k = k + 1;
    }
    weight_queue[0].push(0);
    let mut weight: usize = 0;
    let mut done: bool = false;
    proof {
        assert(weight_queue@[0]@[0] == 0);
        assert(is_queued(weight_queue@, 0, 0, 0));
        assert(is_waiting(g, weight_to_zero@, weight_queue@, 0, 0, cap as int));
    }
    while !done
        invariant
            g == (Graph { rate: rate as nat, order: order as nat, polys: polys@ }),
            g.valid(),
            n == g.num_states(),
            n <= 65536,
            n == 2 * top_bit,
            top_bit == pow2((order - 1) as nat),
            polys@.len() == rate,
            cap + rate < 65535,
            target matches Some(t) ==> t < n,
            weight <= cap,
            weight_queue@.len() == cap + 1,
            is_sound(g, weight_to_zero@, cap as int),
            is_waiting(g, weight_to_zero@, weight_queue@, weight as int, 0, cap as int),
            done ==> (target matches Some(t) && weight_to_zero@[t as int] <= weight),
        decreases cap + 1 - weight,
    {
        let mut idx: usize = 0;
        while idx < weight_queue[weight].len()
            invariant
                g == (Graph { rate: rate as nat, order: order as nat, polys: polys@ }),
                g.valid(),
                n == g.num_states(),
                n <= 65536,
                n == 2 * top_bit,
                top_bit == pow2((order - 1) as nat),
                polys@.len() == rate,
                cap + rate < 65535,
                weight <= cap,
                weight_queue@.len() == cap + 1,
                idx <= weight_queue@[weight as int]@.len(),
                is_sound(g, weight_to_zero@, cap as int),
                is_waiting(
                    g,
                    weight_to_zero@,
                    weight_queue@,
                    weight as int,
                    idx as int,
                    cap as int,
                ),
            decreases total(weight_to_zero@), weight_queue@[weight as int]@.len() - idx,
        {
            let state: u32 = weight_queue[weight][idx];
            let ghost s = state as int;
            let ghost table = weight_to_zero@;
            assert(weight_queue@[weight as int]@[idx as int] < n);
            idx = idx + 1;
            if weight_to_zero[state as usize] as usize == weight {
                let pred_weight: u32 = weight as u32 + output_weight_for_state(state, rate, polys);
                proof {
                    // the state itself is dealt with here, all others wait as before
                    assert forall|q: int|
                        0 <= q < n && q != s && #[trigger] table[q] == weight implies g.relaxed(
                        table,
                        q,
                    ) || is_queued(weight_queue@, weight as int, q, idx as int) by {
                        if !g.relaxed(table, q) {
                            let j = choose|j: int|
                                idx - 1 <= j < weight_queue@[weight as int]@.len()
                                    && #[trigger] weight_queue@[weight as int]@[j] == q;
                            assert(j != idx - 1);
                        }
                    }
                }
                expand(
                    &mut weight_to_zero,
                    &mut weight_queue,
                    state,
                    top_bit,
                    pred_weight,
                    weight,
                    idx,
                    Ghost(g),
                    Ghost(cap as int),
                );
            } else {
                // a shorter walk was found after this state was queued
                proof {
                    assert forall|q: int|
                        0 <= q < n && #[trigger] table[q] == weight implies g.relaxed(table, q)
                        || is_queued(weight_queue@, weight as int, q, idx as int) by {
                        if !g.relaxed(table, q) {
                            let j = choose|j: int|
                                idx - 1 <= j < weight_queue@[weight as int]@.len()
                                    && #[trigger] weight_queue@[weight as int]@[j] == q;
                            assert(j != idx - 1);
                        }
                    }
                }
            }
        }
        proof {
            lemma_next_level(
                g,
                weight_to_zero@,
                weight_queue@,
                weight as int,
                idx as int,
                cap as int,
            );
        }
        if weight == cap as usize {
            // every walk within the cap has been followed
            proof {
                lemma_table_complete(g, weight_to_zero@, cap as int);
            }
            return weight_to_zero;
        }
        weight = weight + 1;
        if let Some(t) = target {
            if weight_to_zero[t as usize] as usize <= weight {
                done = true;
            }
        }
    }
    proof {
        let t = target->0 as int;
        assert forall|q: int| 0 <= q < n && weight_to_zero@[q] <= weight - 1 implies
            #[trigger] g.relaxed(weight_to_zero@, q) by {
            assert(weight_to_zero@[q] < weight);
        }
        lemma_target_final(g, weight_to_zero@, weight as int, cap as int, t);
    }
    weight_to_zero
}

/// Lowers the entries of both predecessors of `state`.
fn expand(
    weight_to_zero: &mut Vec<u16>,
    weight_queue: &mut Vec<Vec<u32>>,
    state: u32,
    top_bit: u32,
    pred_weight: u32,
    level: usize,
    idx: usize,
    Ghost(g): Ghost<Graph>,
    Ghost(cap): Ghost<int>,
)
    requires
        g.valid(),
        g.num_states() <= 65536,
        state < g.num_states(),
        top_bit == pow2((g.order - 1) as nat),
        is_sound(g, old(weight_to_zero)@, cap),
        old(weight_queue)@.len() == cap + 1,
        forall|k: int, j: int|
            0 <= k < old(weight_queue)@.len() && 0 <= j < old(weight_queue)@[k]@.len() ==> (
            #[trigger] old(weight_queue)@[k]@[j]) < g.num_states(),
        forall|s: int|
            0 <= s < g.num_states() && (#[trigger] old(weight_to_zero)@[s]) < level ==> g.relaxed(
                old(weight_to_zero)@,
                s,
            ),
        forall|s: int|
            0 <= s < g.num_states() && s != state && #[trigger] old(weight_to_zero)@[s] == level
                ==> g.relaxed(old(weight_to_zero)@, s) || is_queued(
                old(weight_queue)@,
                level as int,
                s,
                idx as int,
            ),
        forall|s: int|
            0 <= s < g.num_states() && level < #[trigger] old(weight_to_zero)@[s] <= cap
                ==> is_queued(old(weight_queue)@, old(weight_to_zero)@[s] as int, s, 0),
        1 <= idx <= old(weight_queue)@[level as int]@.len(),
        old(weight_queue)@[level as int]@[idx - 1] == state,
        old(weight_to_zero)@[state as int] == level,
        level <= cap,
        pred_weight == level + g.weight(state as int),
        cap + g.rate < 65535,
    ensures
        is_sound(g, final(weight_to_zero)@, cap),
        is_waiting(
            g,
            final(weight_to_zero)@,
            final(weight_queue)@,
            level as int,
            idx as int,
            cap,
        ),
        final(weight_queue)@.len() == old(weight_queue)@.len(),
        final(weight_queue)@[level as int]@.len() >= old(weight_queue)@[level as int]@.len(),
        final(weight_queue)@[level as int]@.len() == old(weight_queue)@[level as int]@.len()
            || total(final(weight_to_zero)@) < total(old(weight_to_zero)@),
        total(final(weight_to_zero)@) <= total(old(weight_to_zero)@),
{
    let ghost s = state as int;
    proof {
        lemma_pow2_unfold(g.order);
        // the state still counts as waiting, at its own place
        assert(is_queued(weight_queue@, level as int, s, idx - 1));
        assert forall|q: int|
            0 <= q < g.num_states() && #[trigger] weight_to_zero@[q] == level implies g.relaxed(
            weight_to_zero@,
            q,
        ) || is_queued(weight_queue@, level as int, q, idx - 1) by {
            if q != s && !g.relaxed(weight_to_zero@, q) {
                let j = choose|j: int|
                    idx <= j < weight_queue@[level as int]@.len()
                        && #[trigger] weight_queue@[level as int]@[j] == q;
                assert(weight_queue@[level as int]@[j] == q);
            }
        }
    }
    relax(
        weight_to_zero,
        weight_queue,
        state / 2,
        pred_weight,
        Ghost(g),
        Ghost(s),
        Ghost(false),
        Ghost(level as int),
        Ghost(idx - 1),
        Ghost(cap),
    );
    let ghost middle = weight_to_zero@;
    relax(
        weight_to_zero,
        weight_queue,
        state / 2 + top_bit,
        pred_weight,
        Ghost(g),
        Ghost(s),
        Ghost(true),
        Ghost(level as int),
        Ghost(idx - 1),
        Ghost(cap),
    );
    proof {
        assert(weight_to_zero@[s / 2] <= middle[s / 2]);
        assert(g.relaxed(weight_to_zero@, s));
        let table = weight_to_zero@;
        assert forall|q: int|
            0 <= q < g.num_states() && #[trigger] table[q] == level implies g.relaxed(table, q)
            || is_queued(weight_queue@, level as int, q, idx as int) by {
            if !g.relaxed(table, q) {
                let j = choose|j: int|
                    idx - 1 <= j < weight_queue@[level as int]@.len()
                        && #[trigger] weight_queue@[level as int]@[j] == q;
                assert(j != idx - 1);
            }
        }
    }
}

/// After the last level the table is final for walks within the cap.
proof fn lemma_table_complete(g: Graph, table: Seq<u16>, cap: int)
    requires
        g.valid(),
        g.closed_to(table, cap),
    ensures
        forall|s: int|
            0 <= s < g.num_states() ==> g.undercuts(s, #[trigger] table[s] as int, cap),
{
    assert forall|s: int| 0 <= s < g.num_states() implies g.undercuts(
        s,
        #[trigger] table[s] as int,
        cap,
    ) by {
        assert forall|x: Seq<bool>| #[trigger] g.within(s, x, cap) implies table[s] <= g.cost(
            s,
            x,
        ) by {
            g.lemma_closed_within(table, cap, s, x);
        }
    }
}

/// Once an entry is no more than the next level, nothing can lower it.
proof fn lemma_target_final(g: Graph, table: Seq<u16>, level: int, cap: int, t: int)
    requires
        g.valid(),
        g.closed_to(table, level - 1),
        0 <= t < g.num_states(),
        table[t] <= level,
    ensures
        g.undercuts(t, table[t] as int, cap),
{
    assert forall|x: Seq<bool>| #[trigger] g.within(t, x, cap) implies table[t] <= g.cost(
        t,
        x,
    ) by {
        if g.cost(t, x) < level {
            g.lemma_closed(table, level - 1, t, x);
        }
    }
}

/// The free distance of a code, or `None` if the code is catastrophic.
///
/// It is the least weight of a walk from state 0 to state 1 and back to state 0.
pub fn evaluate_free_distance(rate: u32, order: u32, polys: &[u16]) -> (d_free: Option<u32>)
    requires
        1 <= order <= 16,
        1 <= rate,
        17 * rate < 65535,
        polys@.len() == rate,
    ensures
        ({
            let g = Graph { rate: rate as nat, order: order as nat, polys: polys@ };
            &&& !coprime(polys@) ==> d_free is None
            &&& d_free is Some ==> combines(1, polys@, polys@.len())
            &&& coprime(polys@) && g.fits() ==> (d_free matches Some(d) && d == g.free_distance())
            &&& d_free matches Some(d) ==> exists|x: Seq<bool>|
                g.is_detour(x) && #[trigger] g.cost(0, x) == d
            &&& coprime(polys@) ==> exists|u: nat, b: nat|
                #[trigger] is_bound(polys@, 64, None, u, b) && match d_free {
                    Some(d) => g.attains(1, d - g.weight(1), b - g.weight(1)) && g.undercuts(
                        1,
                        d - g.weight(1),
                        b - g.weight(1),
                    ),
                    None => forall|x: Seq<bool>| !(#[trigger] g.within(1, x, b - g.weight(1))),
                }
        }),
{
    let ghost g = Graph { rate: rate as nat, order: order as nat, polys: polys@ };
    if is_catastrophic(polys) {
        return None;
    }
    let state_1_weight: u32 = output_weight_for_state(1, rate, polys);
    // the bound is on the whole walk; the search below starts after its first step
    let bound: u32 = free_distance_bound(polys, order, None);
    let ghost u = choose|u: nat| #[trigger] is_bound(polys@, 64, None, u, bound as nat);
    proof {
        assert(is_bound(polys@, 64, None, u, bound as nat));
        lemma_first_step(polys@, u, polys@.len());
        lemma_lightest(polys@, polys@.len());
        assert(is_tried(1, 64));
        lemma2_to64();
        if order > 1 {
            lemma_pow2_strictly_increases(1, order as nat);
        }
        g.lemma_next(0, true);
    }
    let cap: u32 = bound - state_1_weight;
    let to_zero: Vec<u16> = shortest_output_weight_to_zero(order, rate, polys, cap, Some(1));
    proof {
        if g.fits() {
            // a walk of least weight stays within the bound
            lemma_input_bounds_free_distance(g, u);
            g.lemma_least(1);
            let y = choose|y: Seq<bool>| g.end(1, y) == 0 && #[trigger] g.cost(1, y) == g.least(
                1,
            );
            assert(y.len() > 0);
            g.lemma_first(1, y);
            assert(g.within(1, y, cap as int));
            assert(to_zero@[1] <= g.least(1));
        }
        if to_zero@[1] != u16::MAX {
            let x = choose|x: Seq<bool>|
                g.within(1, x, cap as int) && #[trigger] g.cost(1, x) == to_zero@[1] as int;
            g.lemma_prepend(0, true, x);
            let d = seq![true] + x;
            assert(g.is_detour(d) && g.cost(0, d) == state_1_weight + to_zero@[1]);
            g.lemma_least_bound(1, x);
        }
    }
    if to_zero[1] == u16::MAX {
        // the walk would have to weigh more than the bound
        proof {
            assert forall|x: Seq<bool>| !(#[trigger] g.within(1, x, bound - g.weight(1))) by {
                if g.within(1, x, cap as int) {
                    lemma_within_small(g, x, cap as int);
                }
            }
        }
        return None;
    }
    Some(state_1_weight + to_zero[1] as u32)
}

/// A walk within the cap costs less than a missing entry.
proof fn lemma_within_small(g: Graph, x: Seq<bool>, cap: int)
    requires
        g.valid(),
        g.within(1, x, cap),
    ensures
        g.cost(1, x) <= cap + g.rate,
{
    g.lemma_first(1, x);
    lemma_state_weight_bound(g.polys, g.next(1, x[0]), g.rate);
}

} // verus!
