//! Handing out the candidates of a search in batches.

use vstd::arithmetic::div_mod::{lemma_fundamental_div_mod, lemma_fundamental_div_mod_converse};
use vstd::prelude::*;

verus! {

/// The most candidates in one batch.
pub const THREAD_BATCH: usize = 65536;

/// The candidate looked at after `done` others, when the search starts `offset`
/// candidates in and wraps around.
pub open spec fn candidate_after(done: int, offset: int, total: int) -> int {
    (done + offset) % total
}

/// A point of the search worth reporting.
#[derive(Debug, Clone, Copy, PartialEq, Eq, Structural)]
pub struct Milestone {
    /// How many candidates have been handed out.
    pub evaluated: u128,
    /// The same in percent of the total, rounded down.
    pub percent: u128,
}

/// A run of candidates for one worker.
#[derive(Debug, Clone)]
pub struct Batch {
    /// The first candidate.
    pub start: u128,
    /// How many follow it, itself among them; none when the search is over.
    pub length: usize,
    /// The milestones that handing out this batch passes.
    pub milestones: Vec<Milestone>,
}

/// How far a search has come.
#[derive(Debug, Clone)]
pub struct SharedState {
    evaluated: u128,
    step: u128,
    next_print: u128,
    total: u128,
}

/// The multiples of `step` above `low` up to `high`.
pub open spec fn is_milestones(
    milestones: Seq<Milestone>,
    step: int,
    low: int,
    high: int,
    total: int,
) -> bool {
    &&& milestones.len() == high / step - low / step
    &&& forall|i: int|
        0 <= i < milestones.len() ==> #[trigger] milestones[i].evaluated == (low / step + i + 1)
            * step && milestones[i].percent == (low / step + i + 1) * step * 100 / total
}

impl SharedState {
    pub closed spec fn evaluated(self) -> int {
        self.evaluated as int
    }

    pub closed spec fn total(self) -> int {
        self.total as int
    }

    /// The distance of two milestones: a twentieth of the search.
    pub open spec fn step(self) -> int {
        if self.total() / 20 >= 1 {
            self.total() / 20
        } else {
            1
        }
    }

    pub closed spec fn wf(self) -> bool {
        &&& 1 <= self.total
        &&& self.total * 100 <= u128::MAX
        &&& self.evaluated <= self.total
        &&& self.step == self.step()
        &&& self.next_print == (self.evaluated as int / self.step as int + 1) * self.step
    }

    /// A search through `total` candidates, none of them handed out.
    pub fn new(total: u128) -> (state: SharedState)
        requires
            1 <= total,
            total * 100 <= u128::MAX,
        ensures
            state.wf(),
            state.total() == total,
            state.evaluated() == 0,
    {
        let twentieth: u128 = total / 20;
        let step: u128 = if twentieth >= 1 {
            twentieth
        } else {
            1
        };
        proof {
            lemma_fundamental_div_mod_converse(0, step as int, 0, 0);
        }
        SharedState { evaluated: 0, step, next_print: step, total }
    }

    /// How many candidates have been handed out.
    pub fn count(&self) -> (evaluated: u128)
        ensures
            evaluated == self.evaluated(),
    {
        self.evaluated
    }

    /// Hands out the next batch. The search starts `offset` candidates in, which
    /// finds good codes early, and wraps around at the end.
    pub fn next_batch(&mut self, offset: u128) -> (batch: Batch)
        requires
            old(self).wf(),
            offset <= old(self).total(),
        ensures
            final(self).wf(),
            final(self).total() == old(self).total(),
            final(self).evaluated() == old(self).evaluated() + batch.length,
            batch.start == candidate_after(
                old(self).evaluated(),
                offset as int,
                old(self).total(),
            ),
            ({
                let rest = old(self).total() - old(self).evaluated();
                let unwrapped = old(self).total() - batch.start;
                batch.length == if rest <= unwrapped && rest <= THREAD_BATCH {
                    rest
                } else if unwrapped <= THREAD_BATCH {
                    unwrapped
                } else {
                    THREAD_BATCH as int
                }
            }),
            is_milestones(
                batch.milestones@,
                old(self).step(),
                old(self).evaluated(),
                final(self).evaluated(),
                old(self).total(),
            ),
            batch.start == (old(self).evaluated() + offset) % old(self).total(),
            batch.length <= 65536,
            batch.start + batch.length <= old(self).total(),
            batch.length == 65536 || batch.start + batch.length == old(self).total()
                || final(self).evaluated() == old(self).total(),
            old(self).total() >= 20 ==> forall|i: int|
                0 <= i < batch.milestones@.len() ==> {
                    let step = old(self).total() / 20;
                    let at = (old(self).evaluated() / step + i + 1) * step;
                    (#[trigger] batch.milestones@[i]).evaluated == at
                        && batch.milestones@[i].percent == at * 100 / old(self).total()
                },
            old(self).total() < 20 ==> batch.milestones@.len() == batch.length && forall|i: int|
                0 <= i < batch.length ==> (#[trigger] batch.milestones@[i]).evaluated
                    == old(self).evaluated() + i + 1,
            old(self).total() >= 20 ==> batch.milestones@.len() == final(self).evaluated() / (
            old(self).total() / 20) - old(self).evaluated() / (old(self).total() / 20),
    {
        let ghost before = *self;
        let start: u128 = (self.evaluated + offset) % self.total;
        let mut length: u128 = self.total - start;
        if self.total - self.evaluated < length {
            length = self.total - self.evaluated;
        }
        if length > THREAD_BATCH as u128 {
            length = THREAD_BATCH as u128;
        }
        self.evaluated = self.evaluated + length;
        let milestones: Vec<Milestone> = self.pass_milestones(Ghost(before));
        proof {
            let step = before.step();
            assert forall|i: int| 0 <= i < milestones@.len() implies ({
                let at = (before.evaluated() / step + i + 1) * step;
                (#[trigger] milestones@[i]).evaluated == at && milestones@[i].percent == at * 100
                    / before.total()
            }) by {
                assert(milestones@[i].evaluated == (before.evaluated() / step + i + 1) * step);
            }
        }
        Batch { start, length: length as usize, milestones }
    }

    /// Collects the milestones up to the current count.
    fn pass_milestones(&mut self, Ghost(before): Ghost<SharedState>) -> (milestones: Vec<Milestone>)
        requires
            before.wf(),
            before.evaluated <= old(self).evaluated <= old(self).total,
            *old(self) == (SharedState { evaluated: old(self).evaluated, ..before }),
        ensures
            final(self).wf(),
            *final(self) == (SharedState { next_print: final(self).next_print, ..*old(self) }),
            is_milestones(
                milestones@,
                before.step(),
                before.evaluated(),
                old(self).evaluated(),
                before.total(),
            ),
    {
        let ghost step = self.step as int;
        let ghost base = before.evaluated as int / step;
        let mut milestones: Vec<Milestone> = Vec::new();
        proof {
            lemma_fundamental_div_mod(before.evaluated as int, step);
            assert(base * step == step * base && (base + 1) * step == base * step + step)
                by (nonlinear_arith);
        }
        while self.next_print <= self.evaluated
            invariant
                before.wf(),
                step == before.step,
                base == before.evaluated as int / step,
                base >= 0,
                self.evaluated <= self.total,
                *self == (SharedState {
                    evaluated: old(self).evaluated,
                    next_print: self.next_print,
                    ..before
                }),
                self.next_print == (base + milestones@.len() + 1) * step,
                (base + milestones@.len()) * step <= self.evaluated,
                forall|i: int|
                    0 <= i < milestones@.len() ==> #[trigger] milestones@[i].evaluated == (base + i
                        + 1) * step && milestones@[i].percent == (base + i + 1) * step * 100
                        / before.total as int,
            decreases self.evaluated + step - self.next_print,
        {
            let ghost n = milestones@.len() as int;
            assert((base + n + 2) * step == (base + n + 1) * step + step) by (nonlinear_arith);
            milestones.push(
                Milestone {
                    evaluated: self.next_print,
                    percent: self.next_print * 100 / self.total,
                },
            );
            self.next_print = self.next_print + self.step;
        }
        proof {
            let n = base + milestones@.len();
            let e = self.evaluated as int;
            assert((n + 1) * step == n * step + step) by (nonlinear_arith);
            lemma_fundamental_div_mod_converse(e, step, n, e - n * step);
        }
        milestones
    }
}

/// Wherever the search starts, it comes to every candidate exactly once: each
/// candidate is the one looked at after some number of others, and after no
/// other number.
pub proof fn lemma_every_candidate_once(candidate: int, offset: int, total: int)
    requires
        0 <= candidate < total,
        0 <= offset <= total,
    ensures
        exists|done: int|
            0 <= done < total && #[trigger] candidate_after(done, offset, total) == candidate,
        forall|a: int, b: int|
            0 <= a < total && 0 <= b < total && #[trigger] candidate_after(a, offset, total)
                == candidate && #[trigger] candidate_after(b, offset, total) == candidate ==> a
                == b,
{
    assert forall|done: int| 0 <= done < total implies #[trigger] candidate_after(
        done,
        offset,
        total,
    ) == (if done + offset < total {
        done + offset
    } else if done + offset < 2 * total {
        done + offset - total
    } else {
        done + offset - 2 * total
    }) by {
        let x = done + offset;
        if x < total {
            lemma_fundamental_div_mod_converse(x, total, 0, x);
        } else if x < 2 * total {
            lemma_fundamental_div_mod_converse(x, total, 1, x - total);
        } else {
            lemma_fundamental_div_mod_converse(x, total, 2, x - 2 * total);
        }
    }
    let done = if candidate >= offset {
        candidate - offset
    } else {
        candidate - offset + total
    };
    assert(candidate_after(done, offset, total) == candidate);
}

/// A batch holds the candidates that follow one another in the search.
pub proof fn lemma_batch_is_contiguous(done: int, offset: int, total: int, length: int, i: int)
    requires
        0 <= done,
        0 <= offset,
        0 <= i < length,
        0 < total,
        candidate_after(done, offset, total) + length <= total,
    ensures
        candidate_after(done + i, offset, total) == candidate_after(done, offset, total) + i,
{
    let x = done + offset;
    lemma_fundamental_div_mod(x, total);
    assert(total * (x / total) == (x / total) * total) by (nonlinear_arith);
    lemma_fundamental_div_mod_converse(x + i, total, x / total, x % total + i);
}

} // verus!
