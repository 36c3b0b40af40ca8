//! What the distances of a code say of its encoder: the free distance is the least
//! number of set bits that a message other than zero puts out, and the path count is
//! the number of messages that put out so few.

use super::gf2::{lemma_same_bits, lemma_zero_bits};
use super::walk::Graph;
use super::weight::state_weight;
use crate::convolutional::encoder::lemma_register_shift;
use crate::convolutional::recovery::total;
use crate::convolutional::trellis::{lemma_output_bit, lemma_window_bound, window, Trellis};
use vstd::arithmetic::div_mod::lemma_fundamental_div_mod_converse;
use vstd::prelude::*;

verus! {

/// The number of set bits that the encoder puts out for a message.
pub open spec fn output_weight(code: Trellis, x: Seq<bool>) -> nat {
    total(
        |k: int|
            if code.encoded_bit(x, k) {
                1nat
            } else {
                0nat
            },
        x.len() * code.rate,
    )
}

/// The last `order` bits are clear, so the register is empty; or all bits are, where
/// there are fewer.
pub open spec fn is_cleared(x: Seq<bool>, order: nat) -> bool {
    forall|i: int| 0 <= i < x.len() && x.len() - order <= i ==> !(#[trigger] x[i])
}

/// A message that starts with a set bit and clears the register at its end, not
/// before.
pub open spec fn is_excursion(x: Seq<bool>, order: nat) -> bool {
    &&& x.len() > 0
    &&& x[0]
    &&& is_cleared(x, order)
    &&& forall|i: int| 0 < i < x.len() ==> !is_cleared(#[trigger] x.take(i), order)
}

/// There is a polynomial for each output bit, and a register.
pub open spec fn is_code(code: Trellis) -> bool {
    &&& code.rate >= 1
    &&& code.order >= 1
    &&& code.polys.len() == code.rate
}

/// The graph of the code's register.
pub open spec fn graph_for(code: Trellis) -> Graph {
    Graph { rate: code.rate, order: code.order, polys: code.polys }
}

proof fn lemma_end_is_window(g: Graph, x: Seq<bool>)
    requires
        g.valid(),
    ensures
        g.end(0, x) == window(x, g.order),
    decreases x.len(),
{
    if x.len() > 0 {
        lemma_end_is_window(g, x.drop_last());
        lemma_register_shift(x, g.order);
    }
}

/// The state after a message is zero if and only if the message clears the register.
proof fn lemma_end_cleared(g: Graph, x: Seq<bool>)
    requires
        g.valid(),
    ensures
        g.end(0, x) == 0 <==> is_cleared(x, g.order),
{
    let s = g.end(0, x);
    g.lemma_state_bit(x, 0);
    if s == 0 {
        assert forall|i: int| 0 <= i < x.len() && x.len() - g.order <= i implies !(
        #[trigger] x[i]) by {
            let j = (x.len() - 1 - i) as nat;
            g.lemma_state_bit(x, j);
            lemma_zero_bits(j);
        }
    }
    if is_cleared(x, g.order) {
        assert forall|j: nat|
            #[trigger] crate::convolutional::trellis::nat_bit(s as nat, j)
                == crate::convolutional::trellis::nat_bit(0, j) by {
            g.lemma_state_bit(x, j);
            lemma_zero_bits(j);
        }
        lemma_same_bits(s as nat, 0);
    }
}

/// The bits of one step add up to the weight of the register.
proof fn lemma_step_weight(code: Trellis, x: Seq<bool>, f: spec_fn(int) -> nat, n: nat)
    requires
        is_code(code),
        x.len() > 0,
        n <= code.rate,
        forall|k: int| #[trigger] f(k) == if code.encoded_bit(x, k) {
            1nat
        } else {
            0nat
        },
    ensures
        total(f, ((x.len() - 1) * code.rate + n) as nat) == total(
            f,
            ((x.len() - 1) * code.rate) as nat,
        ) + state_weight(code.polys, window(x, code.order), n),
    decreases n,
{
    if n > 0 {
        let m = (n - 1) as nat;
        let t = x.len() - 1;
        let k = t * code.rate + m;
        lemma_step_weight(code, x, f, m);
        lemma_fundamental_div_mod_converse(k, code.rate as int, t, m as int);
        assert(x.take(t + 1) =~= x);
        lemma_window_bound(x, code.order);
        lemma_output_bit(code.polys, window(x, code.order) as nat, code.rate, m);
        assert(0 <= t * code.rate) by (nonlinear_arith)
            requires
                t >= 0,
        ;
        assert((t * code.rate + n) as nat - 1 == k);
        assert(total(f, (t * code.rate + n) as nat) == total(f, k as nat) + f(k));
    }
}

/// What a walk from zero costs is what the encoder puts out for its message.
pub proof fn lemma_cost_is_output(code: Trellis, x: Seq<bool>)
    requires
        is_code(code),
    ensures
        graph_for(code).cost(0, x) == output_weight(code, x),
    decreases x.len(),
{
    let g = graph_for(code);
    let f = |k: int|
        if code.encoded_bit(x, k) {
            1nat
        } else {
            0nat
        };
    if x.len() > 0 {
        let y = x.drop_last();
        let h = |k: int|
            if code.encoded_bit(y, k) {
                1nat
            } else {
                0nat
            };
        let rate = code.rate as int;
        let t = x.len() - 1;
        lemma_cost_is_output(code, y);
        lemma_end_is_window(g, x);
        lemma_step_weight(code, x, f, code.rate);
        assert((x.len() - 1) * rate + rate == x.len() * rate) by (nonlinear_arith);
        assert(0 <= t * rate) by (nonlinear_arith)
            requires
                t >= 0,
                rate >= 0,
        ;
        assert forall|k: int| 0 <= k < t * rate implies #[trigger] f(k) == h(k) by {
            let q = k / rate;
            assert(0 <= q < t) by (nonlinear_arith)
                requires
                    0 <= k < t * rate,
                    rate > 0,
                    q == k / rate,
            ;
            assert(x.take(q + 1) =~= y.take(q + 1));
        }
        lemma_total_same(f, h, (t * rate) as nat);
        assert(output_weight(code, x) == total(f, x.len() * code.rate));
        assert(output_weight(code, y) == total(h, y.len() * code.rate));
    } else {
        assert(x.len() * code.rate == 0) by (nonlinear_arith)
            requires
                x.len() == 0,
        ;
    }
}

proof fn lemma_total_same(f: spec_fn(int) -> nat, g: spec_fn(int) -> nat, n: nat)
    requires
        forall|k: int| 0 <= k < n ==> #[trigger] f(k) == g(k),
    ensures
        total(f, n) == total(g, n),
    decreases n,
{
    if n > 0 {
        lemma_total_same(f, g, (n - 1) as nat);
        assert(f(n - 1) == g(n - 1));
    }
}

/// No message that starts with a set bit and clears the register puts out fewer set
/// bits than the free distance.
pub proof fn lemma_no_lighter_message(code: Trellis, x: Seq<bool>)
    requires
        is_code(code),
        x.len() > 0,
        x[0],
        is_cleared(x, code.order),
    ensures
        output_weight(code, x) >= graph_for(code).free_distance(),
{
    let g = graph_for(code);
    lemma_cost_is_output(code, x);
    lemma_end_cleared(g, x);
    g.lemma_free_distance(x);
}

/// Some such message puts out just as many.
pub proof fn lemma_lightest_message(code: Trellis) -> (x: Seq<bool>)
    requires
        is_code(code),
    ensures
        x.len() > 0,
        x[0],
        is_cleared(x, code.order),
        output_weight(code, x) == graph_for(code).free_distance(),
{
    let g = graph_for(code);
    let x = g.lemma_free_distance_attained();
    lemma_cost_is_output(code, x);
    lemma_end_cleared(g, x);
    x
}

/// The walks of up to `k` steps from `s` that come to zero at their end, not before,
/// and cost `w`.
spec fn walks(g: Graph, s: int, w: int, k: nat) -> Set<Seq<bool>> {
    Set::new(
        |x: Seq<bool>|
            0 < x.len() <= k && g.end(s, x) == 0 && g.cost(s, x) == w && (forall|i: int|
                0 < i < x.len() ==> g.end(s, #[trigger] x.take(i)) != 0),
    )
}

/// Those of them that start with `b`.
spec fn walks_via(g: Graph, s: int, b: bool, w: int, k: nat) -> Set<Seq<bool>> {
    walks(g, s, w, k).filter(|x: Seq<bool>| x[0] == b)
}

/// A first step in front of a walk that goes on from a state other than zero.
proof fn lemma_step_in_front(g: Graph, s: int, b: bool, y: Seq<bool>, w: int, k: nat)
    requires
        k > 0,
        g.next(s, b) != 0,
    ensures
        walks(g, s, w, k).contains(seq![b] + y) <==> walks(
            g,
            g.next(s, b),
            w - g.weight(g.next(s, b)),
            (k - 1) as nat,
        ).contains(y),
{
    let q = g.next(s, b);
    let x = seq![b] + y;
    let v = w - g.weight(q);
    g.lemma_prepend(s, b, y);
    if walks(g, s, w, k).contains(x) {
        if y.len() == 0 {
            assert(g.end(q, y) == q);
        }
        assert forall|i: int| 0 < i < y.len() implies g.end(q, #[trigger] y.take(i)) != 0 by {
            assert(x.take(i + 1) =~= seq![b] + y.take(i));
            g.lemma_prepend(s, b, y.take(i));
            assert(g.end(s, x.take(i + 1)) != 0);
        }
    }
    if walks(g, q, v, (k - 1) as nat).contains(y) {
        assert forall|i: int| 0 < i < x.len() implies g.end(s, #[trigger] x.take(i)) != 0 by {
            assert(x.take(i) =~= seq![b] + y.take(i - 1));
            g.lemma_prepend(s, b, y.take(i - 1));
            if i == 1 {
                assert(y.take(0) =~= Seq::<bool>::empty());
                assert(g.end(q, y.take(0)) == q);
            }
        }
    }
}

/// A walk that is at zero after its first step is over.
proof fn lemma_single_step(g: Graph, s: int, b: bool, x: Seq<bool>, w: int, k: nat)
    requires
        k > 0,
        g.next(s, b) == 0,
        x.len() > 0,
        x[0] == b,
    ensures
        walks(g, s, w, k).contains(x) <==> x == seq![b] && w == g.weight(0),
{
    let one = seq![b];
    g.lemma_prepend(s, b, Seq::<bool>::empty());
    assert(seq![b] + Seq::<bool>::empty() =~= one);
    assert(g.end(0, Seq::<bool>::empty()) == 0);
    assert(g.cost(0, Seq::<bool>::empty()) == 0);
    if walks(g, s, w, k).contains(x) && x.len() > 1 {
        assert(x.take(1) =~= one);
        assert(g.end(s, x.take(1)) != 0);
    }
    if x.len() == 1 {
        assert(x =~= one);
    }
}

proof fn lemma_count_via(g: Graph, s: int, b: bool, w: int, k: nat)
    requires
        k > 0,
    ensures
        walks_via(g, s, b, w, k).finite(),
        walks_via(g, s, b, w, k).len() == g.paths_via(s, b, w, k),
    decreases k, 0int,
{
    let q = g.next(s, b);
    let v = w - g.weight(q);
    let m = (k - 1) as nat;
    let these = walks_via(g, s, b, w, k);
    if q == 0 {
        assert forall|x: Seq<bool>| #[trigger] these.contains(x) <==> x == seq![b] && v == 0 by {
            if x.len() > 0 && x[0] == b {
                lemma_single_step(g, s, b, x, w, k);
            }
            if x == seq![b] {
                assert(x[0] == b);
            }
        }
        if v == 0 {
            assert(these =~= Set::<Seq<bool>>::empty().insert(seq![b]));
        } else {
            assert(these =~= Set::<Seq<bool>>::empty());
        }
    } else {
        let rest = walks(g, q, v, m);
        let f = |y: Seq<bool>| seq![b] + y;
        if v >= 0 {
            lemma_count(g, q, v, m);
        } else {
            assert(rest =~= Set::<Seq<bool>>::empty());
        }
        assert forall|x: Seq<bool>| #[trigger] these.contains(x) <==> rest.map(f).contains(x) by {
            if these.contains(x) {
                let y = x.drop_first();
                assert(x =~= seq![b] + y);
                lemma_step_in_front(g, s, b, y, w, k);
                assert(rest.contains(y) && f(y) == x);
            }
            if rest.map(f).contains(x) {
                let y = choose|y: Seq<bool>| rest.contains(y) && f(y) == x;
                lemma_step_in_front(g, s, b, y, w, k);
                assert(x[0] == b);
            }
        }
        assert(rest.map(f) =~= these);
        assert forall|y: Seq<bool>, z: Seq<bool>|
            rest.contains(y) && rest.contains(z) && #[trigger] f(y) == #[trigger] f(z) implies y
            == z by {
            assert(f(y).drop_first() =~= y);
            assert(f(z).drop_first() =~= z);
        }
        assert(vstd::relations::injective_on(f, rest));
        vstd::set_lib::lemma_map_size(rest, these, f);
    }
}

proof fn lemma_count(g: Graph, s: int, w: int, k: nat)
    ensures
        walks(g, s, w, k).finite(),
        walks(g, s, w, k).len() == g.paths(s, w, k),
    decreases k, 1int,
{
    let all = walks(g, s, w, k);
    if k == 0 {
        assert(all =~= Set::<Seq<bool>>::empty());
    } else {
        lemma_count_via(g, s, false, w, k);
        lemma_count_via(g, s, true, w, k);
        let (low, high) = (walks_via(g, s, false, w, k), walks_via(g, s, true, w, k));
        assert(all =~= low + high);
        assert(low.disjoint(high));
        vstd::set_lib::lemma_set_disjoint_lens(low, high);
    }
}

/// The path count is the number of messages that start with a set bit, clear the
/// register at their end and not before, and put out `w` set bits.
pub proof fn lemma_path_count_messages(code: Trellis, w: nat)
    requires
        is_code(code),
        w > 0,
        graph_for(code).no_idle_cycle(),
    ensures
        ({
            let messages = Set::new(
                |x: Seq<bool>| is_excursion(x, code.order) && output_weight(code, x) == w,
            );
            messages.finite() && messages.len() == graph_for(code).path_count(w)
        }),
{
    let g = graph_for(code);
    let k = g.longest(w as int);
    let messages = Set::new(
        |x: Seq<bool>| is_excursion(x, code.order) && output_weight(code, x) == w,
    );
    let counted = walks(g, 0, w as int, k);
    lemma_count(g, 0, w as int, k);
    assert forall|x: Seq<bool>| #[trigger] messages.contains(x) <==> counted.contains(x) by {
        lemma_cost_is_output(code, x);
        lemma_end_cleared(g, x);
        assert forall|i: int| 0 < i < x.len() implies (g.end(0, #[trigger] x.take(i)) == 0)
            == is_cleared(x.take(i), code.order) by {
            lemma_end_cleared(g, x.take(i));
        }
        if messages.contains(x) {
            lemma_excursion_short(g, x, w);
            assert forall|i: int| 0 < i < x.len() implies g.end(0, #[trigger] x.take(i)) != 0 by {
                assert(!is_cleared(x.take(i), code.order));
            }
        }
        if counted.contains(x) {
            assert forall|i: int| 0 < i < x.len() implies !is_cleared(
                #[trigger] x.take(i),
                code.order,
            ) by {
                assert(g.end(0, x.take(i)) != 0);
            }
            if !x[0] {
                g.lemma_next(0, false);
                lemma_single_step(g, 0, false, x, w as int, k);
                super::mirror::lemma_zero_weighs_nothing(g.polys, g.rate);
            }
        }
    }
    assert(messages =~= counted);
}

/// An excursion that puts out `w` set bits is no longer than the longest that counts.
proof fn lemma_excursion_short(g: Graph, x: Seq<bool>, w: nat)
    requires
        g.valid(),
        g.no_idle_cycle(),
        is_excursion(x, g.order),
        g.cost(0, x) == w,
    ensures
        x.len() <= g.longest(w as int),
{
    let y = x.drop_last();
    assert forall|i: int| 0 < i <= y.len() implies #[trigger] g.end(0, y.take(i)) != 0 by {
        assert(y.take(i) =~= x.take(i));
        assert(!is_cleared(x.take(i), g.order));
        lemma_end_cleared(g, x.take(i));
    }
    assert(g.cost(0, y) <= w);
    g.lemma_walk_short(y, w as int);
}

} // verus!
