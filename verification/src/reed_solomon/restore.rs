//! What a decode gives back, counted in the bytes of the block: the places where
//! what arrived differs from what was sent, and the places that are flagged.

use super::ccsds::{lemma_maps_are_inverse, seq_to_conv, seq_to_dual, to_dual};
use super::code::Code;
use super::decoder::{decode_result, DecodeError};
use super::decoding::{
    error_positions, is_error, lemma_dual_round_trip, lemma_round_trip, valid_erasures,
};
use super::encoder::parity_written;
use super::massey::lemma_massey_shape;
use vstd::prelude::*;

verus! {

/// Place `i` is among those flagged.
pub open spec fn is_flagged(erasures: Seq<u8>, i: int) -> bool {
    exists|k: int| 0 <= k < erasures.len() && #[trigger] erasures[k] == i
}

/// The places where the block differs from what was sent, without those that
/// `flagged` picks.
pub open spec fn wrong_places(
    sent: Seq<u8>,
    block: Seq<u8>,
    flagged: spec_fn(int) -> bool,
) -> Seq<int> {
    Seq::new(block.len(), |i: int| i).filter(|i: int| block[i] != sent[i] && !flagged(i))
}

proof fn lemma_count(
    sent: Seq<u8>,
    block: Seq<u8>,
    erasures: Seq<u8>,
    n: nat,
    pred: spec_fn(int) -> bool,
)
    requires
        forall|i: int| 0 <= i < n ==> #[trigger] pred(i) == is_error(sent, block, erasures, i),
    ensures
        Seq::new(n, |i: int| i).filter(pred).len() == error_positions(
            sent,
            block,
            erasures,
            n,
        ).len(),
    decreases n,
{
    let all = Seq::new(n, |i: int| i);
    reveal(Seq::filter);
    if n > 0 {
        lemma_count(sent, block, erasures, (n - 1) as nat, pred);
        assert(all.drop_last() =~= Seq::new((n - 1) as nat, |i: int| i));
        assert(all.last() == n - 1);
        assert(pred(n - 1) == is_error(sent, block, erasures, n - 1));
    }
}

/// The wrong places are as many as the errors that a decode has to find.
pub proof fn lemma_wrong_places(
    sent: Seq<u8>,
    block: Seq<u8>,
    erasures: Seq<u8>,
    flagged: spec_fn(int) -> bool,
)
    requires
        block.len() <= 255,
        forall|i: int| 0 <= i < block.len() ==> #[trigger] flagged(i) == is_flagged(erasures, i),
    ensures
        wrong_places(sent, block, flagged).len() == error_positions(
            sent,
            block,
            erasures,
            block.len(),
        ).len(),
{
    let pred = |i: int| block[i] != sent[i] && !flagged(i);
    assert forall|i: int| 0 <= i < block.len() implies #[trigger] pred(i) == is_error(
        sent,
        block,
        erasures,
        i,
    ) by {
        assert(flagged(i) == is_flagged(erasures, i));
        if is_flagged(erasures, i) {
            let k = choose|k: int| 0 <= k < erasures.len() && #[trigger] erasures[k] == i;
            assert(erasures[k] == i as u8);
        }
        if erasures.contains(i as u8) {
            let k = choose|k: int| 0 <= k < erasures.len() && erasures[k] == i as u8;
            assert(erasures[k] == i);
        }
    }
    lemma_count(sent, block, erasures, block.len(), pred);
}

/// A message that was encoded comes back from what arrived as long as the number of
/// flagged places and twice the number of other wrong ones do not exceed the number
/// of parity bytes. The decode counts both kinds, or nothing if nothing is wrong, and
/// writes nothing but the message.
pub proof fn lemma_restored(
    code: Code,
    msg: Seq<u8>,
    sent: Seq<u8>,
    block: Seq<u8>,
    erasures: Seq<u8>,
    before: Seq<u8>,
    after: Seq<u8>,
    res: Result<usize, DecodeError>,
)
    requires
        code.valid(),
        code.gap < 256,
        code.gap % 3 != 0,
        code.gap % 5 != 0,
        code.gap % 17 != 0,
        code.is_encoding(msg, sent),
        sent.len() <= 255,
        block.len() == sent.len(),
        before.len() >= msg.len(),
        after.len() == before.len(),
        forall|i: int, j: int|
            0 <= i < j < erasures.len() ==> #[trigger] erasures[i] != #[trigger] erasures[j],
        forall|i: int| 0 <= i < erasures.len() ==> #[trigger] erasures[i] < block.len(),
        erasures.len() + 2 * wrong_places(
            sent,
            block,
            |i: int| is_flagged(erasures, i),
        ).len() <= code.parity,
        decode_result(code, block, erasures, before, after, res),
    ensures
        forall|i: int| 0 <= i < msg.len() ==> #[trigger] after[i] == msg[i],
        forall|i: int| msg.len() <= i < after.len() ==> #[trigger] after[i] == before[i],
        res matches Ok(n) && n == if block == sent {
            0
        } else {
            erasures.len() + wrong_places(sent, block, |i: int| is_flagged(erasures, i)).len()
        },
{
    let n = msg.len() as int;
    assert(valid_erasures(block.len() as int, erasures));
    lemma_wrong_places(sent, block, erasures, |i: int| is_flagged(erasures, i));
    lemma_round_trip(code, msg, sent, block, erasures);
    assert(after.take(n) == msg);
    assert forall|i: int| 0 <= i < msg.len() implies #[trigger] after[i] == msg[i] by {
        assert(after.take(n)[i] == msg[i]);
    }
    assert forall|i: int| n <= i < after.len() implies #[trigger] after[i] == before[i] by {
        assert(after.skip(n)[i - n] == before.skip(n)[i - n]);
    }
}

/// The same for a block of the dual basis, where the decode works on the conventional
/// one: `conv` is what it writes there, and `after` what is handed out.
pub proof fn lemma_dual_restored(
    code: Code,
    msg: Seq<u8>,
    sent: Seq<u8>,
    block: Seq<u8>,
    before: Seq<u8>,
    conv: Seq<u8>,
    after: Seq<u8>,
    res: Result<usize, DecodeError>,
)
    requires
        code.valid(),
        code.gap < 256,
        code.gap % 3 != 0,
        code.gap % 5 != 0,
        code.gap % 17 != 0,
        code.is_encoding(seq_to_conv(msg), seq_to_conv(sent)),
        sent.len() <= 255,
        block.len() == sent.len() == msg.len() + code.parity,
        before.len() >= msg.len(),
        conv.len() == before.len(),
        2 * wrong_places(sent, block, |i: int| false).len() <= code.parity,
        decode_result(code, seq_to_conv(block), Seq::<u8>::empty(), before, conv, res),
        res is Ok ==> after == seq_to_dual(conv.take(block.len() - code.parity)) + conv.skip(
            block.len() - code.parity,
        ),
    ensures
        after.len() == before.len(),
        forall|i: int| 0 <= i < msg.len() ==> #[trigger] after[i] == msg[i],
        forall|i: int| msg.len() <= i < after.len() ==> #[trigger] after[i] == before[i],
        res matches Ok(n) && n == wrong_places(sent, block, |i: int| false).len(),
{
    let n = msg.len() as int;
    let none = Seq::<u8>::empty();
    let flagged = |i: int| false;
    lemma_wrong_places(sent, block, none, flagged);
    lemma_dual_round_trip(code, msg, sent, block, none);
    assert(seq_to_dual(conv.take(n)) == msg);
    if block == sent {
        lemma_no_wrong_places(sent, flagged);
    }
    assert forall|i: int| n <= i < after.len() implies #[trigger] after[i] == before[i] by {
        assert(conv.skip(n)[i - n] == before.skip(n)[i - n]);
    }
}

proof fn lemma_no_wrong_places(sent: Seq<u8>, flagged: spec_fn(int) -> bool)
    ensures
        wrong_places(sent, sent, flagged).len() == 0,
{
    broadcast use vstd::seq_lib::group_filter_ensures;

    let pred = |i: int| sent[i] != sent[i] && !flagged(i);
    let found = wrong_places(sent, sent, flagged);
    if found.len() > 0 {
        assert(pred(found[0]));
    }
}

/// A decode counts at most the erasures and as many errors as there are parity bytes.
pub proof fn lemma_decode_count(code: Code, block: Seq<u8>, erasures: Seq<u8>)
    requires
        code.valid(),
        erasures.len() <= code.parity,
    ensures
        code.decode(block, erasures) matches Some((count, poly)) ==> count <= erasures.len()
            + code.parity,
{
    let s = code.syndromes(block);
    let erased = code.erasure_roots(block.len() as int, erasures);
    let t = code.error_syndromes(s, erased);
    lemma_massey_shape(code.modulus, t, code.parity, t.len());
}

/// A block is refused only if every encoded message differs from it too much: the
/// flagged places and twice the other wrong ones are more than the parity bytes.
pub proof fn lemma_refused_is_far(
    code: Code,
    msg: Seq<u8>,
    sent: Seq<u8>,
    block: Seq<u8>,
    erasures: Seq<u8>,
    before: Seq<u8>,
    after: Seq<u8>,
    res: Result<usize, DecodeError>,
)
    requires
        code.valid(),
        code.gap < 256,
        code.gap % 3 != 0,
        code.gap % 5 != 0,
        code.gap % 17 != 0,
        code.is_encoding(msg, sent),
        sent.len() <= 255,
        block.len() == sent.len(),
        before.len() >= msg.len(),
        after.len() == before.len(),
        forall|i: int, j: int|
            0 <= i < j < erasures.len() ==> #[trigger] erasures[i] != #[trigger] erasures[j],
        forall|i: int| 0 <= i < erasures.len() ==> #[trigger] erasures[i] < block.len(),
        decode_result(code, block, erasures, before, after, res),
        res is Err,
    ensures
        erasures.len() + 2 * wrong_places(
            sent,
            block,
            |i: int| is_flagged(erasures, i),
        ).len() > code.parity,
        after == before,
{
    if erasures.len() + 2 * wrong_places(
        sent,
        block,
        |i: int| is_flagged(erasures, i),
    ).len() <= code.parity {
        lemma_restored(code, msg, sent, block, erasures, before, after, res);
    }
}

/// Parity that is written in the dual basis completes the message on the wire: in the
/// conventional basis the two are an encoding.
pub proof fn lemma_wire_is_encoding(
    code: Code,
    msg: Seq<u8>,
    block: Seq<u8>,
    before: Seq<u8>,
    after: Seq<u8>,
)
    requires
        code.is_encoding(seq_to_conv(msg), block),
        before.len() == code.parity,
        after.len() == before.len(),
        parity_written(block.skip(msg.len() as int), before, after),
    ensures
        code.is_encoding(seq_to_conv(msg), seq_to_conv(msg + after)),
{
    let n = msg.len() as int;
    assert(block.len() == n + code.parity);
    assert forall|i: int| 0 <= i < block.len() implies #[trigger] seq_to_conv(msg + after)[i]
        == block[i] by {
        if i < n {
            assert(block.take(n)[i] == seq_to_conv(msg)[i]);
        } else {
            assert(after[i - n] == to_dual(block.skip(n)[i - n]));
            lemma_maps_are_inverse(block[i]);
        }
    }
    assert(seq_to_conv(msg + after) =~= block);
}

} // verus!
