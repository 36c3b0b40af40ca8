//! The best polynomials found so far.

use super::enumerate::{
    choices_fit, first_poly, is_candidate, lemma_choices_fit, lemma_place_taken, lemma_poly_sizes,
    lemma_rank_injective, multichoose, rank, values_of, values_per_slot, PolyIterator,
};
use super::gf2::coprime;
use super::reciprocal::{reciprocal, reciprocal_of};
use super::shortest::{
    evaluate_free_distance, free_distance_bound, is_bound, is_tried, lemma_lightest, trial_limit,
};
use super::spectrum::count_walks;
use super::walk::{lemma_input_bounds_free_distance, Graph};
use super::weight::input_weight;
use vstd::arithmetic::power2::pow2;
use vstd::prelude::*;

verus! {

/// Lexicographic order.
pub open spec fn lex_less(a: Seq<u16>, b: Seq<u16>) -> bool
    decreases a.len(),
{
    if b.len() == 0 {
        false
    } else if a.len() == 0 {
        true
    } else if a[0] != b[0] {
        a[0] < b[0]
    } else {
        lex_less(a.drop_first(), b.drop_first())
    }
}

/// Sequences that agree up to place `k` compare by what follows.
proof fn lemma_lex_skip(a: Seq<u16>, b: Seq<u16>, k: int)
    requires
        0 <= k <= a.len(),
        k <= b.len(),
        forall|i: int| 0 <= i < k ==> a[i] == b[i],
    ensures
        lex_less(a, b) == lex_less(a.skip(k), b.skip(k)),
    decreases k,
{
    if k == 0 {
        assert(a.skip(0) =~= a && b.skip(0) =~= b);
    } else {
        let (c, d) = (a.drop_first(), b.drop_first());
        assert forall|i: int| 0 <= i < k - 1 implies c[i] == d[i] by {
            assert(a[i + 1] == b[i + 1]);
        }
        lemma_lex_skip(c, d, k - 1);
        assert(c.skip(k - 1) =~= a.skip(k));
        assert(d.skip(k - 1) =~= b.skip(k));
    }
}

/// The order is strict and total.
pub proof fn lemma_lex_total(a: Seq<u16>, b: Seq<u16>)
    ensures
        !(lex_less(a, b) && lex_less(b, a)),
        a == b ==> !lex_less(a, b),
        lex_less(a, b) || lex_less(b, a) || a == b,
    decreases a.len(),
{
    if a.len() == 0 || b.len() == 0 {
        if a.len() == b.len() {
            assert(a =~= b);
        }
    } else if a[0] == b[0] {
        let (c, d) = (a.drop_first(), b.drop_first());
        lemma_lex_total(c, d);
        if c == d {
            assert(a =~= seq![a[0]] + c);
            assert(b =~= seq![b[0]] + d);
        }
    }
}

proof fn lemma_lex_transitive(a: Seq<u16>, b: Seq<u16>, c: Seq<u16>)
    requires
        lex_less(a, b),
        lex_less(b, c),
    ensures
        lex_less(a, c),
    decreases a.len(),
{
    if a.len() > 0 && b.len() > 0 && c.len() > 0 && a[0] == b[0] && b[0] == c[0] {
        lemma_lex_transitive(a.drop_first(), b.drop_first(), c.drop_first());
    }
}

/// Whether `a` comes before `b`.
fn is_lex_less(a: &[u16], b: &[u16]) -> (less: bool)
    ensures
        less == lex_less(a@, b@),
{
    let mut i: usize = 0;
    while i < a.len() && i < b.len()
        invariant
            i <= a@.len(),
            i <= b@.len(),
            forall|k: int| 0 <= k < i ==> a@[k] == b@[k],
        decreases a@.len() - i,
    {
        if a[i] != b[i] {
            proof {
                lemma_lex_skip(a@, b@, i as int);
                assert(a@.skip(i as int)[0] == a@[i as int]);
                assert(b@.skip(i as int)[0] == b@[i as int]);
            }
            return a[i] < b[i];
        }
        i = i + 1;
    }
    proof {
        lemma_lex_skip(a@, b@, i as int);
    }
    a.len() < b.len()
}

/// A set of polynomials and its distances.
#[derive(Debug, Clone)]
pub struct Candidate {
    pub poly: Vec<u16>,
    pub d_free: u32,
    pub a_dfree: u64,
    pub rank: u128,
}

/// What a candidate stands for.
#[verifier::ext_equal]
pub struct Entry {
    pub poly: Seq<u16>,
    pub d_free: u32,
    pub a_dfree: u64,
    pub rank: u128,
}

impl View for Candidate {
    type V = Entry;

    open spec fn view(&self) -> Entry {
        Entry {
            poly: self.poly@,
            d_free: self.d_free,
            a_dfree: self.a_dfree,
            rank: self.rank,
        }
    }
}

/// `a` ranks before `b`: by larger free distance, then by fewer walks of that
/// weight, then in lexicographic order.
pub open spec fn is_better(a: Entry, b: Entry) -> bool {
    ||| a.d_free > b.d_free
    ||| a.d_free == b.d_free && a.a_dfree < b.a_dfree
    ||| a.d_free == b.d_free && a.a_dfree == b.a_dfree && lex_less(a.poly, b.poly)
}

pub proof fn lemma_better_transitive(a: Entry, b: Entry, c: Entry)
    requires
        is_better(a, b),
        !is_better(c, b),
    ensures
        is_better(a, c),
        !is_better(c, a),
{
    lemma_lex_total(b.poly, c.poly);
    lemma_lex_total(a.poly, c.poly);
    if b.d_free == c.d_free && b.a_dfree == c.a_dfree && a.d_free == b.d_free && a.a_dfree
        == b.a_dfree {
        if b.poly != c.poly {
            lemma_lex_transitive(a.poly, b.poly, c.poly);
        }
    }
}

/// The best come first.
pub open spec fn is_ranked(kept: Seq<Entry>) -> bool {
    forall|i: int, j: int| 0 <= i < j < kept.len() ==> !is_better(kept[j], kept[i])
}

/// The first place, from `k` on, that holds something worse than `e`.
pub open spec fn place_of(kept: Seq<Entry>, e: Entry, k: int) -> int
    decreases kept.len() - k,
{
    if k >= kept.len() {
        kept.len() as int
    } else if is_better(e, kept[k]) {
        k
    } else {
        place_of(kept, e, k + 1)
    }
}

/// The list with `e` in its place, cut to `n` entries.
pub open spec fn inserted(kept: Seq<Entry>, e: Entry, n: nat) -> Seq<Entry> {
    let longer = kept.insert(place_of(kept, e, 0), e);
    if longer.len() <= n {
        longer
    } else {
        longer.take(n as int)
    }
}

/// The list with a code and its reciprocal, which has the same distances.
pub open spec fn taken_in(kept: Seq<Entry>, e: Entry, order: nat, n: nat) -> Seq<Entry> {
    let twin = Entry { poly: reciprocal_of(e.poly, order), ..e };
    if twin.poly != e.poly {
        inserted(inserted(kept, twin, n), e, n)
    } else {
        inserted(kept, e, n)
    }
}

/// The list after a code was offered: unchanged if it is full of better ones.
pub open spec fn offered(kept: Seq<Entry>, e: Entry, order: nat, n: nat) -> Seq<Entry> {
    if kept.len() == n && is_better(kept.last(), e) {
        kept
    } else {
        taken_in(kept, e, order, n)
    }
}

/// The goal for the next code: the distance of the worst one kept, once the list
/// is full.
pub open spec fn goal(kept: Seq<Entry>, n: nat, min_d_free: u32) -> u32 {
    if kept.len() == n && kept.last().d_free > min_d_free {
        kept.last().d_free
    } else {
        min_d_free
    }
}

/// No input that is tried shows that the code misses the goal.
pub open spec fn may_meet(polys: Seq<u16>, order: nat, goal: u32) -> bool {
    forall|u: nat|
        #[trigger] is_tried(u, trial_limit(order, Some(goal))) ==> input_weight(
            polys,
            u,
            polys.len(),
        ) >= goal
}

pub open spec fn graph_of(polys: Seq<u16>, order: nat) -> Graph {
    Graph { rate: polys.len(), order, polys }
}

/// The list after a code was looked at. Of a code and its reciprocal only the
/// first in the order is looked at, and only if it may meet the goal.
pub open spec fn considered(
    kept: Seq<Entry>,
    polys: Seq<u16>,
    place: u128,
    order: nat,
    n: nat,
    min_d_free: u32,
) -> Seq<Entry> {
    if lex_less(reciprocal_of(polys, order), polys) || !may_meet(
        polys,
        order,
        goal(kept, n, min_d_free),
    ) || !coprime(polys) {
        kept
    } else {
        let g = graph_of(polys, order);
        let d = g.free_distance();
        offered(
            kept,
            Entry {
                poly: polys,
                d_free: d as u32,
                a_dfree: g.path_count(d) as u64,
                rank: place,
            },
            order,
            n,
        )
    }
}

/// The polynomials at a place of the list.
pub open spec fn is_listed(polys: Seq<u16>, rate: nat, order: nat, place: int) -> bool {
    &&& polys.len() == rate
    &&& is_candidate(polys, order)
    &&& rank(values_of(polys, order), values_per_slot(order)) == place
}

pub open spec fn listed(rate: nat, order: nat, place: int) -> Seq<u16> {
    choose|polys: Seq<u16>| #[trigger] is_listed(polys, rate, order, place)
}

/// The list after `length` codes from place `start` on were looked at.
pub open spec fn searched(
    kept: Seq<Entry>,
    rate: nat,
    order: nat,
    n: nat,
    min_d_free: u32,
    start: int,
    length: nat,
) -> Seq<Entry>
    decreases length,
{
    if length == 0 {
        kept
    } else {
        let place = start + length - 1;
        considered(
            searched(kept, rate, order, n, min_d_free, start, (length - 1) as nat),
            listed(rate, order, place),
            place as u128,
            order,
            n,
            min_d_free,
        )
    }
}

/// The number of walks of least weight is more than 64 bits can count.
pub open spec fn uncountable(polys: Seq<u16>, order: nat) -> bool {
    let g = graph_of(polys, order);
    coprime(polys) && g.path_count(g.free_distance()) > u64::MAX
}

/// Keeps the best codes found.
#[derive(Debug, Clone)]
pub struct BestPolys {
    rate: u32,
    order: u32,
    kept: Vec<Candidate>,
    num_kept: usize,
}

pub open spec fn entries(kept: Seq<Candidate>) -> Seq<Entry> {
    Seq::new(kept.len(), |i: int| kept[i]@)
}

pub proof fn lemma_place_of(kept: Seq<Entry>, e: Entry, k: int)
    requires
        0 <= k <= kept.len(),
        forall|i: int| 0 <= i < k ==> !(#[trigger] is_better(e, kept[i])),
    ensures
        k <= place_of(kept, e, k) <= kept.len(),
        place_of(kept, e, 0) == place_of(kept, e, k),
        forall|i: int| 0 <= i < place_of(kept, e, k) ==> !(#[trigger] is_better(e, kept[i])),
        place_of(kept, e, k) < kept.len() ==> is_better(e, kept[place_of(kept, e, k)]),
    decreases kept.len() - k,
{
    lemma_place_from_zero(kept, e, 0, k);
    if k < kept.len() && !is_better(e, kept[k]) {
        lemma_place_of(kept, e, k + 1);
    }
}

proof fn lemma_place_from_zero(kept: Seq<Entry>, e: Entry, j: int, k: int)
    requires
        0 <= j <= k <= kept.len(),
        forall|i: int| 0 <= i < k ==> !(#[trigger] is_better(e, kept[i])),
    ensures
        place_of(kept, e, j) == place_of(kept, e, k),
    decreases k - j,
{
    if j < k {
        lemma_place_from_zero(kept, e, j + 1, k);
        assert(!is_better(e, kept[j]));
    }
}

/// Inserting keeps the list ranked.
pub proof fn lemma_inserted_ranked(kept: Seq<Entry>, e: Entry, n: nat)
    requires
        is_ranked(kept),
    ensures
        is_ranked(inserted(kept, e, n)),
        inserted(kept, e, n).len() == if kept.len() + 1 <= n {
            kept.len() + 1
        } else {
            n
        },
{
    lemma_place_of(kept, e, 0);
    let at = place_of(kept, e, 0);
    let longer = kept.insert(at, e);
    assert forall|i: int, j: int| 0 <= i < j < longer.len() implies !is_better(
        longer[j],
        longer[i],
    ) by {
        if j == at {
            assert(longer[i] == kept[i]);
            assert(!is_better(e, kept[i]));
        } else if i == at {
            assert(longer[j] == kept[j - 1]);
            if j - 1 > at {
                assert(!is_better(kept[j - 1], kept[at]));
                lemma_better_transitive(e, kept[at], kept[j - 1]);
            } else {
                lemma_lex_total(e.poly, kept[at].poly);
            }
        } else {
            let (p, q) = (
                if i < at {
                    i
                } else {
                    i - 1
                },
                if j < at {
                    j
                } else {
                    j - 1
                },
            );
            assert(longer[i] == kept[p] && longer[j] == kept[q]);
            assert(!is_better(kept[q], kept[p]));
        }
    }
}

impl BestPolys {
    pub closed spec fn rate(self) -> nat {
        self.rate as nat
    }

    pub closed spec fn order(self) -> nat {
        self.order as nat
    }

    pub closed spec fn num_kept(self) -> nat {
        self.num_kept as nat
    }

    /// What is kept, best first.
    pub closed spec fn entries(self) -> Seq<Entry> {
        entries(self.kept@)
    }

    pub closed spec fn wf(self) -> bool {
        &&& 1 <= self.rate
        &&& 17 * self.rate < 65535
        &&& 1 <= self.order <= 16
        &&& 1 <= self.num_kept < usize::MAX
        &&& self.kept@.len() <= self.num_kept
        &&& is_ranked(self.entries())
    }

    /// Keeps up to `num_kept` codes.
    pub fn new(rate: u32, order: u32, num_kept: usize) -> (best: BestPolys)
        requires
            1 <= rate,
            17 * rate < 65535,
            1 <= order <= 16,
            1 <= num_kept < usize::MAX,
        ensures
            best.wf(),
            best.rate() == rate,
            best.order() == order,
            best.num_kept() == num_kept,
            best.entries() == Seq::<Entry>::empty(),
    {
        let best = BestPolys { rate, order, kept: Vec::new(), num_kept };
        assert(best.entries() =~= Seq::<Entry>::empty());
        best
    }

    /// The codes kept, best first.
    pub fn candidates(&self) -> (kept: &[Candidate])
        ensures
            entries(kept@) == self.entries(),
            self.wf() ==> kept@.len() <= self.num_kept(),
            self.wf() ==> forall|i: int, j: int|
                0 <= i < j < kept@.len() ==> (#[trigger] kept@[i]).d_free > (
                #[trigger] kept@[j]).d_free || (kept@[i].d_free == kept@[j].d_free
                    && kept@[i].a_dfree <= kept@[j].a_dfree),
    {
        proof {
            if self.wf() {
                assert forall|i: int, j: int| 0 <= i < j < self.kept@.len() implies (
                #[trigger] self.kept@[i]).d_free > (#[trigger] self.kept@[j]).d_free || (
                self.kept@[i].d_free == self.kept@[j].d_free && self.kept@[i].a_dfree
                    <= self.kept@[j].a_dfree) by {
                    assert(!is_better(self.entries()[j], self.entries()[i]));
                }
            }
        }
        &self.kept
    }

    /// The distance of the worst code kept, once the list is full: codes that fall
    /// short of it can be rejected cheaply.
    pub fn threshold(&self) -> (d_free: Option<u32>)
        requires
            self.wf(),
        ensures
            d_free == if self.entries().len() == self.num_kept() {
                Some(self.entries().last().d_free)
            } else {
                None::<u32>
            },
    {
        if self.kept.len() == self.num_kept {
            Some(self.kept[self.kept.len() - 1].d_free)
        } else {
            None
        }
    }

    /// Inserts a code in its place, and drops the worst if there are too many.
    fn insert(&mut self, poly: Vec<u16>, d_free: u32, a_dfree: u64, rank: u128)
        requires
            old(self).wf(),
        ensures
            final(self).wf(),
            final(self).rate() == old(self).rate(),
            final(self).order() == old(self).order(),
            final(self).num_kept() == old(self).num_kept(),
            final(self).entries() == inserted(
                old(self).entries(),
                Entry { poly: poly@, d_free, a_dfree, rank },
                old(self).num_kept(),
            ),
    {
        let ghost e = Entry { poly: poly@, d_free, a_dfree, rank };
        let ghost before = self.entries();
        let mut pos: usize = 0;
        let mut found: bool = false;
        while !found && pos < self.kept.len()
            invariant
                pos <= self.kept@.len(),
                before == entries(self.kept@),
                e == (Entry { poly: poly@, d_free, a_dfree, rank }),
                forall|i: int| 0 <= i < pos ==> !(#[trigger] is_better(e, before[i])),
                found ==> pos < before.len() && is_better(e, before[pos as int]),
            decreases
                self.kept@.len() - pos + if found {
                    0int
                } else {
                    1
                },
        {
            let c: &Candidate = &self.kept[pos];
            assert(before[pos as int] == c@);
            if c.d_free < d_free || (c.d_free == d_free && c.a_dfree > a_dfree) || (c.d_free
                == d_free && c.a_dfree == a_dfree && is_lex_less(&poly, &c.poly)) {
                found = true;
            } else {
                pos = pos + 1;
            }
        }
        proof {
            lemma_place_of(before, e, pos as int);
            lemma_inserted_ranked(before, e, self.num_kept as nat);
        }
        let c = Candidate { poly, d_free, a_dfree, rank };
        assert(c@ == e);
        let ghost old_kept = self.kept@;
        self.kept.insert(pos, c);
        proof {
            assert(entries(self.kept@) =~= before.insert(pos as int, e));
        }
        let ghost longer = self.kept@;
        self.kept.truncate(self.num_kept);
        proof {
            assert(self.entries() =~= inserted(before, e, self.num_kept as nat));
        }
    }

    /// Takes a code and its reciprocal, which comes for free: it has the same
    /// distances.
    fn take_in(&mut self, poly: &[u16], d_free: u32, a_dfree: u64, rank: u128)
        requires
            old(self).wf(),
            poly@.len() == old(self).rate(),
        ensures
            final(self).wf(),
            final(self).rate() == old(self).rate(),
            final(self).order() == old(self).order(),
            final(self).num_kept() == old(self).num_kept(),
            final(self).entries() == taken_in(
                old(self).entries(),
                Entry { poly: poly@, d_free, a_dfree, rank },
                old(self).order(),
                old(self).num_kept(),
            ),
    {
        let mut twin: Vec<u16> = vec![0u16; poly.len()];
        reciprocal(poly, self.order, twin.as_mut_slice());
        let differs: bool = is_lex_less(&twin, poly) || is_lex_less(poly, &twin);
        proof {
            lemma_lex_total(twin@, poly@);
        }
        if differs {
            self.insert(twin, d_free, a_dfree, rank);
        }
        self.insert(vstd::slice::slice_to_vec(poly), d_free, a_dfree, rank);
    }

    /// Offers a code with its free distance. It is taken unless the list is full
    /// of better ones. Returns false, and leaves the list alone, if the code has
    /// to be told from others by more walks than 64 bits can count.
    pub fn offer(&mut self, poly: &[u16], d_free: u32, rank: u128) -> (counted: bool)
        requires
            old(self).wf(),
            poly@.len() == old(self).rate(),
            d_free + old(self).rate() < 65535,
            graph_of(poly@, old(self).order()).no_idle_cycle(),
        ensures
            final(self).wf(),
            final(self).rate() == old(self).rate(),
            final(self).order() == old(self).order(),
            final(self).num_kept() == old(self).num_kept(),
            !counted ==> graph_of(poly@, old(self).order()).path_count(d_free as nat) > u64::MAX
                && final(self).entries() == old(self).entries(),
            graph_of(poly@, old(self).order()).path_count(d_free as nat) <= u64::MAX ==> counted,
            counted ==> final(self).entries() == offered(
                old(self).entries(),
                Entry {
                    poly: poly@,
                    d_free,
                    a_dfree: graph_of(poly@, old(self).order()).path_count(d_free as nat) as u64,
                    rank,
                },
                old(self).order(),
                old(self).num_kept(),
            ),
    {
        let full: bool = self.kept.len() == self.num_kept;
        let last: usize = if full {
            self.kept.len() - 1
        } else {
            0
        };
        if full {
            assert(self.entries().last() == self.kept@[last as int]@);
            if d_free < self.kept[last].d_free {
                return true;
            }
        }
        let a_dfree: u64 = match count_walks(self.rate, self.order, poly, d_free) {
            Some(count) => count,
            None => {
                return false;
            },
        };
        if full && d_free == self.kept[last].d_free {
            // fewer walks of that weight are better; after that, later codes lose
            let worst: &Candidate = &self.kept[last];
            if a_dfree > worst.a_dfree || (a_dfree == worst.a_dfree && is_lex_less(
                &worst.poly,
                poly,
            )) {
                return true;
            }
        }
        self.take_in(poly, d_free, a_dfree, rank);
        true
    }

    /// Looks at `length` codes from place `start` of the list on. Returns false if
    /// it came to a code with more walks than 64 bits can count.
    #[verifier::rlimit(40)]
    pub fn search_batch(&mut self, start: u128, length: usize, min_d_free: u32) -> (counted: bool)
        requires
            old(self).wf(),
            old(self).order() <= 15,
            choices_fit(values_per_slot(old(self).order()), old(self).rate()),
            start + length <= multichoose(
                values_per_slot(old(self).order()),
                old(self).rate(),
            ),
        ensures
            final(self).wf(),
            final(self).rate() == old(self).rate(),
            final(self).order() == old(self).order(),
            final(self).num_kept() == old(self).num_kept(),
            !counted ==> exists|place: int|
                start <= place < start + length && uncountable(
                    #[trigger] listed(old(self).rate(), old(self).order(), place),
                    old(self).order(),
                ),
            counted ==> final(self).entries() == searched(
                old(self).entries(),
                old(self).rate(),
                old(self).order(),
                old(self).num_kept(),
                min_d_free,
                start as int,
                length as nat,
            ),
    {
        if length == 0 {
            return true;
        }
        let ghost before = self.entries();
        let ghost (r, o, n) = (self.rate(), self.order(), self.num_kept());
        let ghost total = multichoose(values_per_slot(o), r);
        proof {
            lemma_choices_fit(values_per_slot(o), r);
        }
        let rate: u32 = self.rate;
        let order: u32 = self.order;
        let mut polys: PolyIterator = PolyIterator::from_index(rate, order, start);
        let mut poly: Vec<u16> = vec![0u16; rate as usize];
        let mut offset: usize = 0;
        while offset < length
            invariant
                offset <= length,
                self.wf(),
                self.rate() == r,
                self.order() == o,
                self.num_kept() == n,
                r == old(self).rate(),
                o == old(self).order(),
                n == old(self).num_kept(),
                r == rate,
                o == order,
                1 <= rate,
                17 * rate < 65535,
                1 <= order <= 15,
                total == multichoose(values_per_slot(o), r),
                start + length <= total,
                total <= u128::MAX,
                self.entries() == searched(
                    before,
                    r,
                    o,
                    n,
                    min_d_free,
                    start as int,
                    offset as nat,
                ),
                polys.wf(),
                polys.order() == o,
                polys.current().len() == r,
                poly@.len() == r,
                polys.is_done() == (start + offset == total),
                !polys.is_done() ==> polys.place() == start + offset,
            decreases length - offset,
        {
            let ghost listed_here = polys.current();
            proof {
                assert(start + offset < total);
                assert(!polys.is_done());
            }
            polys.next(poly.as_mut_slice());
            let rank: u128 = start + offset as u128;
            proof {
                assert(poly@ == listed_here);
                lemma_listed(poly@, r, o, start + offset);
            }
            if !self.consider(&poly, rank, min_d_free) {
                assert(uncountable(listed(r, o, start + offset), o));
                return false;
            }
            offset = offset + 1;
        }
        true
    }

    /// Looks at one code. Returns false if it has more walks than 64 bits can
    /// count.
    pub fn consider(&mut self, poly: &[u16], place: u128, min_d_free: u32) -> (counted: bool)
        requires
            old(self).wf(),
            poly@.len() == old(self).rate(),
            old(self).order() <= 15,
            is_candidate(poly@, old(self).order()),
        ensures
            final(self).wf(),
            final(self).rate() == old(self).rate(),
            final(self).order() == old(self).order(),
            final(self).num_kept() == old(self).num_kept(),
            !counted ==> uncountable(poly@, old(self).order()),
            !uncountable(poly@, old(self).order()) ==> counted,
            counted ==> final(self).entries() == considered(
                old(self).entries(),
                poly@,
                place,
                old(self).order(),
                old(self).num_kept(),
                min_d_free,
            ),
    {
        let ghost g = graph_of(poly@, self.order());
        let ghost o = self.order();
        let mut recip: Vec<u16> = vec![0u16; poly.len()];
        reciprocal(poly, self.order, recip.as_mut_slice());
        if is_lex_less(&recip, poly) {
            // the reciprocal came first
            return true;
        }
        let min_bound: u32 = match self.threshold() {
            Some(d) => if d > min_d_free {
                d
            } else {
                min_d_free
            },
            None => min_d_free,
        };
        let bound: u32 = free_distance_bound(poly, self.order, Some(min_bound));
        proof {
            let limit = trial_limit(o, Some(min_bound));
            let u = choose|u: nat|
                #[trigger] is_bound(poly@, limit, Some(min_bound), u, bound as nat);
            assert(is_bound(poly@, limit, Some(min_bound), u, bound as nat));
            assert(may_meet(poly@, o, min_bound) == (bound >= min_bound)) by {
                if bound < min_bound {
                    assert(is_tried(u, limit));
                }
            }
        }
        if bound < min_bound {
            return true;
        }
        let found: Option<u32> = evaluate_free_distance(self.rate, self.order, poly);
        proof {
            lemma_candidate_fits(poly@, o);
        }
        match found {
            Some(d_free) => {
                proof {
                    assert(coprime(poly@));
                    g.lemma_no_idle_cycle();
                    lemma_input_bounds_free_distance(g, 1);
                    lemma_lightest(poly@, poly@.len());
                }
                self.offer(poly, d_free, place)
            },
            None => true,
        }
    }

    /// Takes over what another list kept.
    pub fn merge(&mut self, other: &BestPolys)
        requires
            old(self).wf(),
        ensures
            final(self).wf(),
            final(self).rate() == old(self).rate(),
            final(self).order() == old(self).order(),
            final(self).num_kept() == old(self).num_kept(),
            final(self).entries() == merged(
                old(self).entries(),
                other.entries(),
                old(self).num_kept(),
                other.entries().len(),
            ),
    {
        let ghost before = self.entries();
        let ghost n = self.num_kept();
        let ghost theirs = other.entries();
        let mut i: usize = 0;
        while i < other.kept.len()
            invariant
                i <= other.kept@.len(),
                theirs == entries(other.kept@),
                self.wf(),
                self.rate() == old(self).rate(),
                self.order() == old(self).order(),
                self.num_kept() == n,
                n == old(self).num_kept(),
                self.entries() == merged(before, theirs, n, i as nat),
            decreases other.kept@.len() - i,
        {
            let c: &Candidate = &other.kept[i];
            assert(theirs[i as int] == c@);
            self.insert(
                vstd::slice::slice_to_vec(&c.poly),
                c.d_free,
                c.a_dfree,
                c.rank,
            );
            i = i + 1;
        }
    }
}

/// The list after the first `k` of `more` were inserted.
pub open spec fn merged(kept: Seq<Entry>, more: Seq<Entry>, n: nat, k: nat) -> Seq<Entry>
    decreases k,
{
    if k == 0 {
        kept
    } else {
        inserted(merged(kept, more, n, (k - 1) as nat), more[k - 1], n)
    }
}

/// The polynomials of the list reach as far as the register, not past it.
pub proof fn lemma_candidate_fits(polys: Seq<u16>, order: nat)
    requires
        1 <= order <= 15,
        is_candidate(polys, order),
    ensures
        graph_of(polys, order).fits(),
{
    lemma_poly_sizes(order);
    let v = values_of(polys, order);
    assert forall|i: int| 0 <= i < polys.len() implies #[trigger] polys[i] < pow2(order) by {
        assert(polys[i] == first_poly(order) + 2 * v[i]);
        assert(v[i] < values_per_slot(order));
    }
}

/// There is only one set of polynomials at a place.
pub proof fn lemma_listed(polys: Seq<u16>, rate: nat, order: nat, place: int)
    requires
        1 <= order <= 15,
        is_listed(polys, rate, order, place),
    ensures
        listed(rate, order, place) == polys,
{
    lemma_poly_sizes(order);
    let q = listed(rate, order, place);
    assert(is_listed(q, rate, order, place));
    let (v, w) = (values_of(polys, order), values_of(q, order));
    lemma_rank_injective(v, w, values_per_slot(order));
    assert forall|i: int| 0 <= i < polys.len() implies polys[i] == q[i] by {
        assert(polys[i] == first_poly(order) + 2 * v[i]);
        assert(q[i] == first_poly(order) + 2 * w[i]);
    }
    assert(polys =~= q);
}

/// There is a set of polynomials at every place.
pub proof fn lemma_place_listed(rate: nat, order: nat, place: int)
    requires
        1 <= order <= 15,
        0 <= place < multichoose(values_per_slot(order), rate),
    ensures
        is_listed(listed(rate, order, place), rate, order, place),
{
    lemma_poly_sizes(order);
    let v = lemma_place_taken(values_per_slot(order), rate, place);
    let polys = Seq::new(rate, |i: int| (first_poly(order) + 2 * v[i]) as u16);
    assert forall|i: int| 0 <= i < rate implies #[trigger] polys[i] == first_poly(order) + 2 * v[i]
        && values_of(polys, order)[i] == v[i] by {
        assert(v[i] < values_per_slot(order));
    }
    assert(values_of(polys, order) =~= v);
    assert(is_listed(polys, rate, order, place));
}

} // verus!
