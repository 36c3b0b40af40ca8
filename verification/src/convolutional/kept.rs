//! Puncturing seen from the pattern's own entries: which places of a block are
//! sent, and where each of them is found in the sent stream.

use super::bit::bit_at;
use super::error::bytes_for;
use super::puncture::{
    flattened, is_depunctured, is_depunctured_soft, is_erasure_mask, is_punctured, keeps_bit,
    kept_count,
};
use vstd::arithmetic::div_mod::{lemma_fundamental_div_mod_converse, lemma_small_mod};
use vstd::prelude::*;

verus! {

/// The places among the first `n` where the repeated pattern holds `true`.
pub open spec fn kept_places(keep: Seq<bool>, n: nat) -> Seq<int> {
    Seq::new(n, |i: int| i).filter(|i: int| keep[i % (keep.len() as int)])
}

/// Each kept place is the next one in the list.
proof fn lemma_places(keep: Seq<bool>, n: nat)
    ensures
        kept_places(keep, n).len() == kept_count(keep, n),
        forall|i: int|
            0 <= i < n && #[trigger] keeps_bit(keep, i) ==> kept_count(keep, i as nat)
                < kept_count(keep, n) && kept_places(keep, n)[kept_count(keep, i as nat) as int]
                == i,
        forall|j: int|
            0 <= j < kept_places(keep, n).len() ==> {
                let i = #[trigger] kept_places(keep, n)[j];
                0 <= i < n && keep[i % (keep.len() as int)] && kept_count(keep, i as nat) == j
            },
    decreases n,
{
    let all = Seq::new(n, |i: int| i);
    let pred = |i: int| keep[i % (keep.len() as int)];
    reveal(Seq::filter);
    if n > 0 {
        let m = (n - 1) as nat;
        lemma_places(keep, m);
        assert(all.drop_last() =~= Seq::new(m, |i: int| i));
        assert(kept_places(keep, n) == if pred(n - 1) {
            kept_places(keep, m).push(n - 1)
        } else {
            kept_places(keep, m)
        });
        let (old_places, new_places) = (kept_places(keep, m), kept_places(keep, n));
        assert forall|i: int| 0 <= i < n && #[trigger] keeps_bit(keep, i) implies kept_count(
            keep,
            i as nat,
        ) < kept_count(keep, n) && new_places[kept_count(keep, i as nat) as int] == i by {
            if i < m {
                assert(old_places[kept_count(keep, i as nat) as int] == i);
            }
        }
        assert forall|j: int| 0 <= j < new_places.len() implies {
            let i = #[trigger] new_places[j];
            0 <= i < n && keep[i % (keep.len() as int)] && kept_count(keep, i as nat) == j
        } by {
            if j < old_places.len() {
                assert(new_places[j] == old_places[j]);
            }
        }
    }
}

/// The number of bits sent is the number of `true` entries that the first `n`
/// places of the repeated pattern hold.
pub proof fn lemma_sent_len(keep: Seq<bool>, n: nat)
    ensures
        kept_count(keep, n) == Seq::new(n, |i: int| keep[i % (keep.len() as int)]).filter(
            |kept: bool| kept,
        ).len(),
    decreases n,
{
    let all = Seq::new(n, |i: int| keep[i % (keep.len() as int)]);
    reveal(Seq::filter);
    if n > 0 {
        lemma_sent_len(keep, (n - 1) as nat);
        assert(all.drop_last() =~= Seq::new(
            (n - 1) as nat,
            |i: int| keep[i % (keep.len() as int)],
        ));
        assert(all.last() == keep[(n - 1) % (keep.len() as int)]);
    }
}

/// One whole period sends as many bits as the pattern has `true` entries.
pub proof fn lemma_period_len(keep: Seq<bool>)
    ensures
        kept_count(keep, keep.len()) == keep.filter(|kept: bool| kept).len(),
{
    lemma_sent_len(keep, keep.len());
    assert forall|i: int| 0 <= i < keep.len() implies #[trigger] keep[i] == keep[i % (
    keep.len() as int)] by {
        lemma_small_mod(i as nat, keep.len());
    }
    assert(Seq::new(keep.len(), |i: int| keep[i % (keep.len() as int)]) =~= keep);
}

/// A further period sends a further period's worth of bits.
pub proof fn lemma_next_period_len(keep: Seq<bool>, n: nat)
    requires
        keep.len() > 0,
    ensures
        kept_count(keep, n + keep.len()) == kept_count(keep, n) + keep.filter(
            |kept: bool| kept,
        ).len(),
    decreases n,
{
    if n == 0 {
        lemma_period_len(keep);
    } else {
        let m = (n - 1) as nat;
        lemma_next_period_len(keep, m);
        vstd::arithmetic::div_mod::lemma_mod_add_multiples_vanish(m as int, keep.len() as int);
        assert((n + keep.len() - 1) as nat == m + keep.len());
        assert((m as int + keep.len() as int) % (keep.len() as int) == m as int % (keep.len() as int));
    }
}

/// The sent stream is the block's bits in the kept places, in their order, and
/// zeros to the end of the last byte.
pub proof fn lemma_sent_stream(keep: Seq<bool>, src: Seq<u8>, n: nat, sent: Seq<u8>, j: int)
    requires
        is_punctured(keep, src, n, sent),
        0 <= j < 8 * ((kept_places(keep, n).len() + 7) / 8),
    ensures
        ((sent[j / 8] >> ((7 - j % 8) as u8)) & 1u8 == 1u8) == (j < kept_places(keep, n).len() && ({
            let i = kept_places(keep, n)[j];
            (src[i / 8] >> ((7 - i % 8) as u8)) & 1u8 == 1u8
        })),
{
    lemma_places(keep, n);
    if j < kept_places(keep, n).len() {
        let i = kept_places(keep, n)[j];
        assert(keeps_bit(keep, i));
        assert(bit_at(sent, kept_count(keep, i as nat) as int) == bit_at(src, i));
    } else {
        assert(bytes_for(kept_count(keep, n) as int) == (kept_places(keep, n).len() + 7) / 8);
        assert(!bit_at(sent, j));
    }
}

/// Putting the bits back is the reverse: each goes to its kept place, and every
/// other place is zero.
pub proof fn lemma_expanded_stream(keep: Seq<bool>, sent: Seq<u8>, n: nat, expanded: Seq<u8>)
    requires
        is_depunctured(keep, sent, n, expanded),
    ensures
        forall|j: int|
            0 <= j < kept_places(keep, n).len() ==> ({
                let i = #[trigger] kept_places(keep, n)[j];
                ((expanded[i / 8] >> ((7 - i % 8) as u8)) & 1u8 == 1u8) == ((sent[j / 8] >> ((7 - j
                    % 8) as u8)) & 1u8 == 1u8)
            }),
        forall|i: int|
            0 <= i < n && !(#[trigger] keep[i % (keep.len() as int)]) ==> (expanded[i / 8] >> ((7
                - i % 8) as u8)) & 1u8 != 1u8,
        forall|i: int|
            n <= i < 8 * ((n + 7) / 8) ==> ((#[trigger] expanded[i / 8]) >> ((7 - i % 8) as u8))
                & 1u8 != 1u8,
{
    lemma_places(keep, n);
    assert forall|i: int| n <= i < 8 * ((n + 7) / 8) implies ((#[trigger] expanded[i / 8]) >> ((7
        - i % 8) as u8)) & 1u8 != 1u8 by {
        assert(!bit_at(expanded, i));
    }
    assert forall|j: int| 0 <= j < kept_places(keep, n).len() implies ({
        let i = #[trigger] kept_places(keep, n)[j];
        ((expanded[i / 8] >> ((7 - i % 8) as u8)) & 1u8 == 1u8) == ((sent[j / 8] >> ((7 - j
            % 8) as u8)) & 1u8 == 1u8)
    }) by {
        let i = kept_places(keep, n)[j];
        assert(keeps_bit(keep, i));
        assert(bit_at(expanded, i) == bit_at(sent, j));
    }
    assert forall|i: int|
        0 <= i < n && !(#[trigger] keep[i % (keep.len() as int)]) implies (expanded[i / 8] >> ((7
        - i % 8) as u8)) & 1u8 != 1u8 by {
        assert(bit_at(expanded, i) == (keeps_bit(keep, i) && bit_at(
            sent,
            kept_count(keep, i as nat) as int,
        )));
    }
}

/// The same for soft symbols, with 128 in every other place.
pub proof fn lemma_expanded_symbols(keep: Seq<bool>, arrived: Seq<u8>, expanded: Seq<u8>)
    requires
        is_depunctured_soft(keep, arrived, expanded),
    ensures
        forall|j: int|
            0 <= j < kept_places(keep, expanded.len()).len() ==> expanded[#[trigger] kept_places(
                keep,
                expanded.len(),
            )[j]] == arrived[j],
        forall|i: int|
            0 <= i < expanded.len() && !keep[i % (keep.len() as int)] ==> #[trigger] expanded[i]
                == 128,
{
    let n = expanded.len();
    lemma_places(keep, n);
    assert forall|j: int| 0 <= j < kept_places(keep, n).len() implies expanded[#[trigger] kept_places(
        keep,
        n,
    )[j]] == arrived[j] by {
        let i = kept_places(keep, n)[j];
        assert(keeps_bit(keep, i));
    }
}

/// The mask flags exactly the places of the block where the pattern holds `false`, and
/// none behind them in its last byte.
pub proof fn lemma_mask_flags(keep: Seq<bool>, n: nat, mask: Seq<u8>, i: int)
    requires
        is_erasure_mask(keep, n, mask),
        0 <= i < 8 * ((n + 7) / 8),
    ensures
        ((mask[i / 8] >> ((7 - i % 8) as u8)) & 1u8 == 1u8) == (i < n && !keep[i % (
        keep.len() as int)]),
{
    assert(bit_at(mask, i) == (i < n && !keeps_bit(keep, i)));
}

/// A matrix is laid out column by column: the entry of row `r` and column `c`
/// decides over output `r` of step `c` of each period.
pub proof fn lemma_matrix_entries(matrix: Seq<&[bool]>, r: int, c: int)
    requires
        0 <= r < matrix.len(),
        0 <= c < matrix[0]@.len(),
    ensures
        flattened(matrix).len() == matrix.len() * matrix[0]@.len(),
        flattened(matrix)[c * matrix.len() + r] == matrix[r]@[c],
{
    let rate = matrix.len() as int;
    let at = c * rate + r;
    lemma_fundamental_div_mod_converse(at, rate, c, r);
    assert(0 <= at < rate * matrix[0]@.len()) by (nonlinear_arith)
        requires
            0 <= r < rate,
            0 <= c < matrix[0]@.len(),
            at == c * rate + r,
    ;
}

} // verus!
