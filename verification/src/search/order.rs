//! How a list of codes is ordered, and what it is full of when a code is missing
//! from it, told by the distances and path counts of its entries.

use super::best::{
    considered, graph_of, inserted, is_better, is_ranked, lemma_better_transitive, lemma_place_of,
    lex_less, listed, merged, offered, place_of, searched, taken_in, Entry,
};
use super::complete::{entry_of, is_sought, lemma_merge_settles, lemma_search_settles, settled, twin_of};
use super::enumerate::{multichoose, values_per_slot};
use super::gf2::coprime;
use super::reciprocal::reciprocal_of;
use super::shortest::{is_tried, trial_limit};
use super::weight::input_weight;
use vstd::arithmetic::power2::{lemma2_to64, lemma_pow2_pos, lemma_pow2_unfold, pow2};
use vstd::prelude::*;

verus! {

/// Polynomials that differ compare as they do in the first place where they differ.
pub proof fn lemma_first_difference(a: Seq<u16>, b: Seq<u16>, k: int)
    requires
        0 <= k < a.len(),
        k < b.len(),
        forall|i: int| 0 <= i < k ==> a[i] == b[i],
        a[k] != b[k],
    ensures
        lex_less(a, b) == (a[k] < b[k]),
    decreases k,
{
    if k > 0 {
        let (c, d) = (a.drop_first(), b.drop_first());
        assert forall|i: int| 0 <= i < k - 1 implies c[i] == d[i] by {
            assert(a[i + 1] == b[i + 1]);
        }
        assert(c[k - 1] == a[k] && d[k - 1] == b[k]);
        lemma_first_difference(c, d, k - 1);
    }
}

/// Of two entries of a ranked list the first has the larger distance; or the same
/// distance and fewer paths at it; or the same of both, and its polynomials are the
/// smaller ones in the first place where they differ.
pub proof fn lemma_list_order(kept: Seq<Entry>, i: int, j: int)
    requires
        is_ranked(kept),
        0 <= i < j < kept.len(),
    ensures
        kept[i].d_free >= kept[j].d_free,
        kept[i].d_free == kept[j].d_free ==> kept[i].a_dfree <= kept[j].a_dfree,
        kept[i].d_free == kept[j].d_free && kept[i].a_dfree == kept[j].a_dfree ==> forall|k: int|
            #![trigger kept[i].poly[k]]
            0 <= k < kept[i].poly.len() && k < kept[j].poly.len() && kept[i].poly[k]
                != kept[j].poly[k] && (forall|m: int|
                0 <= m < k ==> kept[i].poly[m] == kept[j].poly[m]) ==> kept[i].poly[k]
                < kept[j].poly[k],
{
    assert(!is_better(kept[j], kept[i]));
    let (a, b) = (kept[i], kept[j]);
    if a.d_free == b.d_free && a.a_dfree == b.a_dfree {
        assert forall|k: int|
            #![trigger a.poly[k]]
            0 <= k < a.poly.len() && k < b.poly.len() && a.poly[k] != b.poly[k] && (forall|m: int|
                0 <= m < k ==> a.poly[m] == b.poly[m]) implies a.poly[k] < b.poly[k] by {
            lemma_first_difference(b.poly, a.poly, k);
        }
    }
}

/// Inserting puts an entry behind all that have a larger distance, or the same
/// distance and no more paths and, if as many, polynomials that come no later; what
/// it is put in front of is behind it in that order. The rest stay as they are, and
/// what is too much at the end is cut.
pub proof fn lemma_insert_place(kept: Seq<Entry>, e: Entry, n: nat) -> (at: int)
    requires
        is_ranked(kept),
    ensures
        0 <= at <= kept.len(),
        inserted(kept, e, n) == (kept.take(at) + seq![e] + kept.skip(at)).take(
            if kept.len() + 1 <= n {
                kept.len() as int + 1
            } else {
                n as int
            },
        ),
        forall|i: int|
            0 <= i < at ==> {
                let f = #[trigger] kept[i];
                ||| f.d_free > e.d_free
                ||| f.d_free == e.d_free && f.a_dfree < e.a_dfree
                ||| f.d_free == e.d_free && f.a_dfree == e.a_dfree && !lex_less(e.poly, f.poly)
            },
        forall|i: int|
            at <= i < kept.len() ==> {
                let f = #[trigger] kept[i];
                ||| f.d_free < e.d_free
                ||| f.d_free == e.d_free && f.a_dfree > e.a_dfree
                ||| f.d_free == e.d_free && f.a_dfree == e.a_dfree && lex_less(e.poly, f.poly)
            },
{
    let at = place_of(kept, e, 0);
    lemma_place_of(kept, e, 0);
    let longer = kept.insert(at, e);
    assert(longer =~= kept.take(at) + seq![e] + kept.skip(at));
    assert(longer.take(longer.len() as int) =~= longer);
    assert forall|i: int| 0 <= i < at implies {
        let f = #[trigger] kept[i];
        ||| f.d_free > e.d_free
        ||| f.d_free == e.d_free && f.a_dfree < e.a_dfree
        ||| f.d_free == e.d_free && f.a_dfree == e.a_dfree && !lex_less(e.poly, f.poly)
    } by {
        assert(!is_better(e, kept[i]));
    }
    assert forall|i: int| at <= i < kept.len() implies {
        let f = #[trigger] kept[i];
        ||| f.d_free < e.d_free
        ||| f.d_free == e.d_free && f.a_dfree > e.a_dfree
        ||| f.d_free == e.d_free && f.a_dfree == e.a_dfree && lex_less(e.poly, f.poly)
    } by {
        if i > at {
            assert(!is_better(kept[i], kept[at]));
            lemma_better_transitive(e, kept[at], kept[i]);
        }
        assert(is_better(e, kept[i]));
    }
    at
}

/// The list holds the code, or it is full, and every entry has a larger distance, or
/// the same distance and no more paths at it.
proof fn lemma_settled_fields(kept: Seq<Entry>, n: nat, e: Entry)
    requires
        is_ranked(kept),
        settled(kept, n, e),
    ensures
        kept.contains(e) || (kept.len() == n && forall|i: int|
            0 <= i < n ==> (#[trigger] kept[i]).d_free > e.d_free || (kept[i].d_free == e.d_free
                && kept[i].a_dfree <= e.a_dfree)),
{
    if !kept.contains(e) {
        assert forall|i: int| 0 <= i < n implies (#[trigger] kept[i]).d_free > e.d_free || (
        kept[i].d_free == e.d_free && kept[i].a_dfree <= e.a_dfree) by {
            if i < n - 1 {
                lemma_list_order(kept, i, n - 1);
            }
        }
    }
}

/// A search drops a code worth finding only from a list that is full of codes with a
/// larger free distance, or with the same and no more paths at it. The same holds of
/// the code's reciprocal.
pub proof fn lemma_search_drops(
    kept: Seq<Entry>,
    rate: nat,
    order: nat,
    n: nat,
    min_d_free: u32,
    start: int,
    length: nat,
    place: int,
)
    requires
        is_ranked(kept),
        kept.len() <= n,
        n > 0,
        1 <= order <= 15,
        0 <= start <= place < start + length,
        start + length <= multichoose(values_per_slot(order), rate),
        coprime(listed(rate, order, place)),
        min_d_free <= graph_of(listed(rate, order, place), order).free_distance() <= u32::MAX,
        graph_of(listed(rate, order, place), order).path_count(
            graph_of(listed(rate, order, place), order).free_distance(),
        ) <= u64::MAX,
        !lex_less(reciprocal_of(listed(rate, order, place), order), listed(rate, order, place)),
    ensures
        ({
            let found = searched(kept, rate, order, n, min_d_free, start, length);
            let polys = listed(rate, order, place);
            let d = graph_of(polys, order).free_distance();
            let a = graph_of(polys, order).path_count(d);
            &&& found.len() <= n
            &&& forall|i: int, j: int|
                0 <= i < j < found.len() ==> (#[trigger] found[i]).d_free > (
                #[trigger] found[j]).d_free || (found[i].d_free == found[j].d_free
                    && found[i].a_dfree <= found[j].a_dfree)
            &&& (exists|i: int|
                0 <= i < found.len() && (#[trigger] found[i]).poly == polys && found[i].d_free == d
                    && found[i].a_dfree == a) || (found.len() == n && forall|i: int|
                0 <= i < n ==> (#[trigger] found[i]).d_free > d || (found[i].d_free == d
                    && found[i].a_dfree <= a))
            &&& (exists|i: int|
                0 <= i < found.len() && (#[trigger] found[i]).poly == reciprocal_of(polys, order)
                    && found[i].d_free == d && found[i].a_dfree == a) || (found.len() == n
                && forall|i: int|
                0 <= i < n ==> (#[trigger] found[i]).d_free > d || (found[i].d_free == d
                    && found[i].a_dfree <= a))
        }),
{
    let found = searched(kept, rate, order, n, min_d_free, start, length);
    let polys = listed(rate, order, place);
    let e = entry_of(polys, order, place);
    let twin = twin_of(e, order);
    lemma_search_settles(kept, rate, order, n, min_d_free, start, length, place);
    assert(is_sought(polys, order, min_d_free));
    assert forall|i: int, j: int| 0 <= i < j < found.len() implies (#[trigger] found[i]).d_free > (
    #[trigger] found[j]).d_free || (found[i].d_free == found[j].d_free && found[i].a_dfree
        <= found[j].a_dfree) by {
        lemma_list_order(found, i, j);
    }
    lemma_settled_fields(found, n, e);
    lemma_settled_fields(found, n, twin);
    if found.contains(e) {
        let i = choose|i: int| 0 <= i < found.len() && found[i] == e;
        assert(found[i].poly == polys);
    }
    if found.contains(twin) {
        let i = choose|i: int| 0 <= i < found.len() && found[i] == twin;
        assert(found[i].poly == reciprocal_of(polys, order));
    }
}

/// Merging drops an entry only from a list that comes out full of entries with a
/// larger distance, or with the same and no more paths at it; what comes out is in
/// order, and each of its entries stood in one of the two lists.
pub proof fn lemma_merge_drops(kept: Seq<Entry>, more: Seq<Entry>, n: nat, e: Entry)
    requires
        is_ranked(kept),
        is_ranked(more),
        kept.len() <= n,
        more.len() <= n,
        n > 0,
    ensures
        ({
            let all = merged(kept, more, n, more.len());
            &&& all.len() <= n
            &&& forall|i: int, j: int|
                0 <= i < j < all.len() ==> (#[trigger] all[i]).d_free > (#[trigger] all[j]).d_free
                    || (all[i].d_free == all[j].d_free && all[i].a_dfree <= all[j].a_dfree)
            &&& kept.contains(e) || more.contains(e) ==> all.contains(e) || (all.len() == n
                && forall|i: int|
                0 <= i < n ==> (#[trigger] all[i]).d_free > e.d_free || (all[i].d_free == e.d_free
                    && all[i].a_dfree <= e.a_dfree))
            &&& all.contains(e) ==> kept.contains(e) || more.contains(e)
        }),
{
    let all = merged(kept, more, n, more.len());
    lemma_merged_from(kept, more, n, more.len(), e);
    assert forall|i: int, j: int| 0 <= i < j < all.len() implies (#[trigger] all[i]).d_free > (
    #[trigger] all[j]).d_free || (all[i].d_free == all[j].d_free && all[i].a_dfree
        <= all[j].a_dfree) by {
        lemma_list_order(all, i, j);
    }
    if kept.contains(e) || more.contains(e) {
        lemma_merge_settles(kept, more, n, e);
        lemma_settled_fields(all, n, e);
    }
}

/// What an insertion leaves was there before or is what was inserted.
proof fn lemma_inserted_from(kept: Seq<Entry>, e: Entry, n: nat, f: Entry)
    requires
        is_ranked(kept),
        kept.len() <= n,
        inserted(kept, e, n).contains(f),
    ensures
        f == e || kept.contains(f),
{
    let at = place_of(kept, e, 0);
    lemma_place_of(kept, e, 0);
    let result = inserted(kept, e, n);
    let i = choose|i: int| 0 <= i < result.len() && result[i] == f;
    if i < at {
        assert(kept[i] == f);
    } else if i > at {
        assert(kept[i - 1] == f);
    }
}

proof fn lemma_merged_from(kept: Seq<Entry>, more: Seq<Entry>, n: nat, k: nat, e: Entry)
    requires
        is_ranked(kept),
        kept.len() <= n,
        k <= more.len(),
    ensures
        is_ranked(merged(kept, more, n, k)),
        merged(kept, more, n, k).len() <= n,
        merged(kept, more, n, k).contains(e) ==> kept.contains(e) || more.contains(e),
    decreases k,
{
    if k > 0 {
        let m = (k - 1) as nat;
        let before = merged(kept, more, n, m);
        lemma_merged_from(kept, more, n, m, e);
        super::best::lemma_inserted_ranked(before, more[m as int], n);
        if inserted(before, more[m as int], n).contains(e) {
            lemma_inserted_from(before, more[m as int], n, e);
            assert(more.contains(more[m as int]));
        }
    }
}

/// `f` is the entry of a code that is not catastrophic, comes no later than its
/// reciprocal and stands at a place from `start` on, before `start + length`; or of that
/// code's reciprocal. None of the odd inputs below `2^(order - 2)`, nor the input 1,
/// shows that the code falls short of the least distance asked for.
pub open spec fn is_found(
    f: Entry,
    rate: nat,
    order: nat,
    min_d_free: u32,
    start: int,
    length: nat,
) -> bool {
    let polys = listed(rate, order, f.rank as int);
    let g = graph_of(polys, order);
    &&& start <= f.rank < start + length
    &&& coprime(polys)
    &&& !lex_less(reciprocal_of(polys, order), polys)
    &&& forall|u: nat|
        u % 2 == 1 && (u == 1 || (order > 3 && u < pow2((order - 2) as nat)))
            ==> #[trigger] input_weight(polys, u, polys.len()) >= min_d_free
    &&& f.poly == polys || f.poly == reciprocal_of(polys, order)
    &&& f.d_free == g.free_distance() as u32
    &&& f.a_dfree == g.path_count(g.free_distance()) as u64
}

/// A search adds nothing but codes that it looked at and their reciprocals, each with
/// its own free distance and path count.
pub proof fn lemma_search_adds(
    kept: Seq<Entry>,
    rate: nat,
    order: nat,
    n: nat,
    min_d_free: u32,
    start: int,
    length: nat,
    f: Entry,
)
    requires
        is_ranked(kept),
        kept.len() <= n,
        n > 0,
        1 <= order <= 15,
        0 <= start,
        start + length <= multichoose(values_per_slot(order), rate),
        start + length <= u128::MAX,
        searched(kept, rate, order, n, min_d_free, start, length).contains(f),
    ensures
        kept.contains(f) || is_found(f, rate, order, min_d_free, start, length),
    decreases length,
{
    if length > 0 {
        let m = (length - 1) as nat;
        let last = start + m;
        let before = searched(kept, rate, order, n, min_d_free, start, m);
        let polys = listed(rate, order, last);
        lemma_search_settles(kept, rate, order, n, min_d_free, start, m, start - 1);
        let after = considered(before, polys, last as u128, order, n, min_d_free);
        if before.contains(f) {
            lemma_search_adds(kept, rate, order, n, min_d_free, start, m, f);
        } else {
            let e = entry_of(polys, order, last);
            let twin = twin_of(e, order);
            assert(after == offered(before, e, order, n));
            assert(after == taken_in(before, e, order, n));
            if twin.poly != e.poly {
                super::best::lemma_inserted_ranked(before, twin, n);
                lemma_inserted_from(inserted(before, twin, n), e, n, f);
                if f != e {
                    lemma_inserted_from(before, twin, n, f);
                }
            } else {
                lemma_inserted_from(before, e, n, f);
            }
            assert(f.rank == last);
            let target = super::best::goal(before, n, min_d_free);
            assert forall|u: nat|
                u % 2 == 1 && (u == 1 || (order > 3 && u < pow2(
                    (order - 2) as nat,
                ))) implies #[trigger] input_weight(polys, u, polys.len()) >= min_d_free by {
                lemma2_to64();
                if order > 3 {
                    lemma_pow2_unfold((order - 2) as nat);
                    lemma_pow2_pos((order - 3) as nat);
                }
                assert(is_tried(u, trial_limit(order, Some(target))));
            }
        }
    }
}

} // verus!
