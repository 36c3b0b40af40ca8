//! Why a search misses nothing: whatever it looks at ends up in the list, or is
//! not better than what the list is full of.

use super::best::{
    considered, goal, graph_of, inserted, is_better, is_ranked, lemma_better_transitive,
    lemma_candidate_fits, lemma_inserted_ranked, lemma_lex_total, lemma_place_listed,
    lemma_place_of, lex_less, listed, may_meet, merged, offered, place_of, searched, taken_in,
    Entry,
};
use super::enumerate::{multichoose, values_per_slot};
use super::gf2::coprime;
use super::limits::lemma_output_weight;
use super::reciprocal::reciprocal_of;
use super::shortest::{is_tried, trial_limit};
use super::weight::input_weight;
use vstd::prelude::*;

verus! {

/// The list holds `e`, or is full of what `e` is not better than.
pub open spec fn settled(kept: Seq<Entry>, n: nat, e: Entry) -> bool {
    ||| kept.contains(e)
    ||| kept.len() == n && n > 0 && !is_better(e, kept.last())
}

/// What is not better than something is not better than anything better still.
proof fn lemma_not_better(a: Entry, b: Entry, c: Entry)
    requires
        !is_better(a, b),
        !is_better(b, c),
    ensures
        !is_better(a, c),
{
    if is_better(a, c) {
        lemma_better_transitive(a, c, b);
    }
}

proof fn lemma_better_strict(a: Entry, b: Entry)
    requires
        is_better(a, b),
    ensures
        !is_better(b, a),
{
    lemma_lex_total(a.poly, b.poly);
}

/// The list with `f` in its place, not cut.
spec fn grown(kept: Seq<Entry>, f: Entry) -> Seq<Entry> {
    kept.insert(place_of(kept, f, 0), f)
}

proof fn lemma_grown(kept: Seq<Entry>, f: Entry)
    requires
        is_ranked(kept),
    ensures
        is_ranked(grown(kept, f)),
        grown(kept, f).len() == kept.len() + 1,
{
    lemma_place_of(kept, f, 0);
    lemma_inserted_ranked(kept, f, kept.len() + 1);
}

/// Inserting keeps what was settled.
proof fn lemma_insert_keeps(kept: Seq<Entry>, n: nat, e: Entry, f: Entry)
    requires
        is_ranked(kept),
        kept.len() <= n,
        n > 0,
        settled(kept, n, e),
    ensures
        settled(inserted(kept, f, n), n, e),
{
    lemma_place_of(kept, f, 0);
    lemma_grown(kept, f);
    let at = place_of(kept, f, 0);
    let longer = grown(kept, f);
    let result = inserted(kept, f, n);
    if kept.contains(e) {
        let i = choose|i: int| 0 <= i < kept.len() && kept[i] == e;
        let j = if i < at {
            i
        } else {
            i + 1
        };
        assert(longer[j] == e);
        if j < result.len() {
            assert(result[j] == e);
        } else {
            assert(result.last() == longer[n - 1]);
            assert(!is_better(longer[j], longer[n - 1]));
        }
    } else {
        assert(result.last() == longer[n - 1]);
        if at == n {
            assert(longer[n - 1] == kept.last());
        } else {
            assert(longer[n as int] == kept.last());
            assert(!is_better(longer[n as int], longer[n - 1]));
            lemma_not_better(e, kept.last(), longer[n - 1]);
        }
    }
}

/// Inserting settles what is inserted.
proof fn lemma_insert_settles(kept: Seq<Entry>, n: nat, f: Entry)
    requires
        is_ranked(kept),
        kept.len() <= n,
        n > 0,
    ensures
        settled(inserted(kept, f, n), n, f),
        is_ranked(inserted(kept, f, n)),
        inserted(kept, f, n).len() <= n,
{
    lemma_place_of(kept, f, 0);
    lemma_inserted_ranked(kept, f, n);
    let at = place_of(kept, f, 0);
    let longer = grown(kept, f);
    let result = inserted(kept, f, n);
    if at < n {
        assert(result[at] == f);
    } else {
        assert(longer[n - 1] == kept[n - 1]);
        assert(result.last() == longer[n - 1]);
        assert(!is_better(f, kept[n - 1]));
    }
}

/// The reciprocal's entry.
pub open spec fn twin_of(e: Entry, order: nat) -> Entry {
    Entry { poly: reciprocal_of(e.poly, order), ..e }
}

/// An offer settles the code and its reciprocal, and keeps what was settled.
proof fn lemma_offer_settles(kept: Seq<Entry>, e: Entry, order: nat, n: nat)
    requires
        is_ranked(kept),
        kept.len() <= n,
        n > 0,
        !lex_less(reciprocal_of(e.poly, order), e.poly),
    ensures
        settled(offered(kept, e, order, n), n, e),
        settled(offered(kept, e, order, n), n, twin_of(e, order)),
        is_ranked(offered(kept, e, order, n)),
        offered(kept, e, order, n).len() <= n,
        forall|f: Entry| #[trigger] settled(kept, n, f) ==> settled(
            offered(kept, e, order, n),
            n,
            f,
        ),
{
    let twin = twin_of(e, order);
    if kept.len() == n && is_better(kept.last(), e) {
        lemma_better_strict(kept.last(), e);
        if is_better(twin, kept.last()) {
            // the reciprocal comes later in the order, so it is no better
            lemma_lex_total(twin.poly, e.poly);
            assert(!is_better(twin, e));
            lemma_better_transitive(kept.last(), e, twin);
            lemma_better_strict(kept.last(), twin);
        }
    } else {
        let first = if twin.poly != e.poly {
            inserted(kept, twin, n)
        } else {
            kept
        };
        if twin.poly != e.poly {
            lemma_insert_settles(kept, n, twin);
        } else {
            assert(twin == e);
        }
        lemma_insert_settles(first, n, e);
        let result = taken_in(kept, e, order, n);
        assert(result == inserted(first, e, n));
        if twin.poly != e.poly {
            lemma_insert_keeps(first, n, twin, e);
        }
        assert forall|f: Entry| #[trigger] settled(kept, n, f) implies settled(result, n, f) by {
            if twin.poly != e.poly {
                lemma_insert_keeps(kept, n, f, twin);
            }
            lemma_insert_keeps(first, n, f, e);
        }
    }
}

/// The entry of a code.
pub open spec fn entry_of(polys: Seq<u16>, order: nat, place: int) -> Entry {
    let g = graph_of(polys, order);
    Entry {
        poly: polys,
        d_free: g.free_distance() as u32,
        a_dfree: g.path_count(g.free_distance()) as u64,
        rank: place as u128,
    }
}

/// The code is worth finding: it is not catastrophic, is not far too light, and
/// comes no later than its reciprocal.
pub open spec fn is_sought(polys: Seq<u16>, order: nat, min_d_free: u32) -> bool {
    &&& coprime(polys)
    &&& graph_of(polys, order).free_distance() >= min_d_free
    &&& graph_of(polys, order).free_distance() <= u32::MAX
    &&& !lex_less(reciprocal_of(polys, order), polys)
}

/// Looking at a code settles it, even where it is rejected without its distance
/// being computed.
proof fn lemma_consider_settles(
    kept: Seq<Entry>,
    polys: Seq<u16>,
    place: int,
    order: nat,
    n: nat,
    min_d_free: u32,
)
    requires
        is_ranked(kept),
        kept.len() <= n,
        n > 0,
        graph_of(polys, order).valid(),
        graph_of(polys, order).fits(),
    ensures
        ({
            let after = considered(kept, polys, place as u128, order, n, min_d_free);
            let e = entry_of(polys, order, place);
            &&& is_ranked(after)
            &&& after.len() <= n
            &&& is_sought(polys, order, min_d_free) ==> settled(after, n, e) && settled(
                after,
                n,
                twin_of(e, order),
            )
            &&& forall|f: Entry| #[trigger] settled(kept, n, f) ==> settled(after, n, f)
        }),
{
    let g = graph_of(polys, order);
    let e = entry_of(polys, order, place);
    let target = goal(kept, n, min_d_free);
    if lex_less(reciprocal_of(polys, order), polys) || !coprime(polys) {
    } else if !may_meet(polys, order, target) {
        let u = choose|u: nat|
            #[trigger] is_tried(u, trial_limit(order, Some(target))) && input_weight(
                polys,
                u,
                polys.len(),
            ) < target;
        lemma_output_weight(g, u);
        assert(g.free_distance() < target);
    } else {
        lemma_offer_settles(kept, e, order, n);
    }
}

/// A search misses nothing: every code worth finding among those looked at is in
/// the list afterwards, or the list is full of codes that it is not better than;
/// and the same holds of its reciprocal. What was settled before stays so.
pub proof fn lemma_search_settles(
    kept: Seq<Entry>,
    rate: nat,
    order: nat,
    n: nat,
    min_d_free: u32,
    start: int,
    length: nat,
    place: int,
)
    requires
        is_ranked(kept),
        kept.len() <= n,
        n > 0,
        1 <= order <= 15,
        0 <= start,
        start + length <= multichoose(values_per_slot(order), rate),
    ensures
        is_ranked(searched(kept, rate, order, n, min_d_free, start, length)),
        searched(kept, rate, order, n, min_d_free, start, length).len() <= n,
        start <= place < start + length && is_sought(
            listed(rate, order, place),
            order,
            min_d_free,
        ) ==> settled(
            searched(kept, rate, order, n, min_d_free, start, length),
            n,
            entry_of(listed(rate, order, place), order, place),
        ) && settled(
            searched(kept, rate, order, n, min_d_free, start, length),
            n,
            twin_of(entry_of(listed(rate, order, place), order, place), order),
        ),
        forall|f: Entry| #[trigger] settled(kept, n, f) ==> settled(
            searched(kept, rate, order, n, min_d_free, start, length),
            n,
            f,
        ),
    decreases length,
{
    if length > 0 {
        let m = (length - 1) as nat;
        let last = start + m;
        lemma_search_settles(kept, rate, order, n, min_d_free, start, m, place);
        let before = searched(kept, rate, order, n, min_d_free, start, m);
        let polys = listed(rate, order, last);
        lemma_place_listed(rate, order, last);
        lemma_candidate_fits(polys, order);
        lemma_consider_settles(before, polys, last, order, n, min_d_free);
        let e = entry_of(listed(rate, order, place), order, place);
        if start <= place < last && is_sought(listed(rate, order, place), order, min_d_free) {
            assert(settled(before, n, e));
            assert(settled(before, n, twin_of(e, order)));
        }
        assert forall|f: Entry| #[trigger] settled(kept, n, f) implies settled(
            searched(kept, rate, order, n, min_d_free, start, length),
            n,
            f,
        ) by {
            assert(settled(before, n, f));
        }
    }
}

/// After `k` entries of a ranked list are merged, the first `k` places hold
/// nothing worse than the last of them.
proof fn lemma_merged_head(kept: Seq<Entry>, more: Seq<Entry>, n: nat, k: nat, j: int)
    requires
        is_ranked(kept),
        is_ranked(more),
        kept.len() <= n,
        more.len() <= n,
        n > 0,
        k <= more.len(),
    ensures
        is_ranked(merged(kept, more, n, k)),
        k <= merged(kept, more, n, k).len() <= n,
        0 <= j < k ==> !is_better(more[k - 1], merged(kept, more, n, k)[j]),
    decreases k,
{
    if k > 0 {
        let m = (k - 1) as nat;
        let before = merged(kept, more, n, m);
        let e = more[k - 1];
        lemma_merged_head(kept, more, n, m, j);
        lemma_insert_settles(before, n, e);
        lemma_inserted_ranked(before, e, n);
        lemma_place_of(before, e, 0);
        let at = place_of(before, e, 0);
        assert forall|i: int| 0 <= i < m implies !(#[trigger] is_better(e, before[i])) by {
            lemma_merged_head(kept, more, n, m, i);
            assert(!is_better(more[k - 1], more[m - 1]));
            lemma_not_better(e, more[m - 1], before[i]);
        }
        if 0 <= j < k {
            let after = inserted(before, e, n);
            if j < at {
                assert(after[j] == before[j]);
                assert(!is_better(e, before[j]));
            } else if j == at {
                assert(after[j] == e);
                lemma_lex_total(e.poly, e.poly);
            } else {
                // then something before place k - 1 would be worse
                assert(at < m);
                assert(is_better(e, before[at]));
                assert(!is_better(e, before[at]));
            }
        }
    }
}

proof fn lemma_merge_keeps(kept: Seq<Entry>, more: Seq<Entry>, n: nat, k: nat, e: Entry)
    requires
        is_ranked(kept),
        is_ranked(more),
        kept.len() <= n,
        more.len() <= n,
        n > 0,
        k <= more.len(),
        settled(kept, n, e) || exists|i: int| 0 <= i < k && more[i] == e,
    ensures
        settled(merged(kept, more, n, k), n, e),
    decreases k,
{
    if k > 0 {
        let m = (k - 1) as nat;
        let before = merged(kept, more, n, m);
        lemma_merged_head(kept, more, n, m, 0);
        if more[m as int] == e {
            lemma_insert_settles(before, n, e);
        } else {
            lemma_merge_keeps(kept, more, n, m, e);
            lemma_insert_keeps(before, n, e, more[m as int]);
        }
    }
}

/// Merging two lists loses nothing either: what is settled in one of them is
/// settled in the merged list. So it does not matter how a search is divided.
pub proof fn lemma_merge_settles(kept: Seq<Entry>, more: Seq<Entry>, n: nat, e: Entry)
    requires
        is_ranked(kept),
        is_ranked(more),
        kept.len() <= n,
        more.len() <= n,
        n > 0,
        settled(kept, n, e) || settled(more, n, e),
    ensures
        settled(merged(kept, more, n, more.len()), n, e),
{
    let all = merged(kept, more, n, more.len());
    if settled(kept, n, e) {
        lemma_merge_keeps(kept, more, n, more.len(), e);
    } else if more.contains(e) {
        let i = choose|i: int| 0 <= i < more.len() && more[i] == e;
        assert(more[i] == e);
        lemma_merge_keeps(kept, more, n, more.len(), e);
    } else {
        lemma_merged_head(kept, more, n, more.len(), n - 1);
        lemma_not_better(e, more.last(), all.last());
    }
}

} // verus!
