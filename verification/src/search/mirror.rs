//! A code and its reciprocal have the same distances: every walk through one,
//! read backwards, is a walk through the other with the states mirrored.

use super::best::graph_of;
use super::gf2::{lemma_same_bits, lemma_zero_bits};
use super::reciprocal::{
    ascending, lemma_ascending, lemma_reversed_bit, lemma_reversed_twice, place_for, reciprocal_of,
    reversed,
};
use super::walk::{lemma_dot_parity, lemma_parity_first, parity, Graph};
use super::weight::state_weight;
use crate::convolutional::trellis::{dot, nat_bit};
use vstd::arithmetic::power2::{lemma2_to64, lemma_pow2_pos, lemma_pow2_strictly_increases, pow2};
use vstd::prelude::*;

verus! {

/// A state read backwards weighs in `b` what the state weighs in `a`.
pub open spec fn mirrors(a: Graph, b: Graph) -> bool {
    &&& a.valid()
    &&& b.valid()
    &&& a.order == b.order
    &&& forall|s: nat|
        s < pow2(a.order) ==> b.weight(#[trigger] reversed(s, a.order) as int) == a.weight(
            s as int,
        )
}

proof fn lemma_mirrors_back(a: Graph, b: Graph)
    requires
        mirrors(a, b),
    ensures
        mirrors(b, a),
{
    assert forall|s: nat| s < pow2(b.order) implies a.weight(
        #[trigger] reversed(s, b.order) as int,
    ) == b.weight(s as int) by {
        let r = reversed(s, a.order);
        lemma_reversed_bit(s, a.order, 0);
        lemma_reversed_twice(s, a.order);
        assert(b.weight(reversed(r, a.order) as int) == a.weight(r as int));
    }
}

/// Parity does not depend on the direction.
proof fn lemma_parity_reversed(f: spec_fn(nat) -> bool, g: spec_fn(nat) -> bool, n: nat)
    requires
        forall|j: nat| j < n ==> #[trigger] g(j) == f((n - 1 - j) as nat),
    ensures
        parity(f, n) == parity(g, n),
    decreases n,
{
    if n > 0 {
        let m = (n - 1) as nat;
        let h = |j: nat| g(j + 1);
        assert forall|j: nat| j < m implies #[trigger] h(j) == f((m - 1 - j) as nat) by {
            assert(g(j + 1) == f((n - 1 - (j + 1)) as nat));
        }
        lemma_parity_reversed(f, h, m);
        lemma_parity_first(g, h, m);
        assert(g(0) == f((n - 1 - 0) as nat));
    }
}

/// A reversed polynomial takes of a reversed register what the polynomial takes of
/// the register.
proof fn lemma_dot_reversed(s: nat, p: nat, n: nat)
    requires
        s < pow2(n),
        p < pow2(n),
    ensures
        dot(reversed(s, n), reversed(p, n)) == dot(s, p),
{
    let (t, q) = (reversed(s, n), reversed(p, n));
    lemma_reversed_bit(p, n, 0);
    lemma_dot_parity(s, p, n);
    lemma_dot_parity(t, q, n);
    let f = |j: nat| nat_bit(s, j) && nat_bit(p, j);
    let g = |j: nat| nat_bit(t, j) && nat_bit(q, j);
    assert forall|j: nat| j < n implies #[trigger] g(j) == f((n - 1 - j) as nat) by {
        lemma_reversed_bit(s, n, j);
        lemma_reversed_bit(p, n, j);
    }
    lemma_parity_reversed(f, g, n);
}

/// One more polynomial, wherever it goes, adds its own output.
proof fn lemma_weight_insert(v: Seq<u16>, at: int, x: u16, s: int)
    requires
        0 <= at <= v.len(),
    ensures
        state_weight(v.insert(at, x), s, v.len() + 1) == state_weight(v, s, v.len()) + (if dot(
            s as nat,
            x as nat,
        ) {
            1nat
        } else {
            0nat
        }),
    decreases v.len(),
{
    let u = v.insert(at, x);
    if at == v.len() {
        lemma_weight_prefix(u, v, s, v.len());
    } else {
        let w = v.drop_last();
        lemma_weight_insert(w, at, x, s);
        lemma_weight_prefix(u, w.insert(at, x), s, v.len());
        lemma_weight_prefix(v, w, s, w.len());
        assert(u[v.len() as int] == v.last());
    }
}

/// The weight depends on the polynomials that it counts alone.
proof fn lemma_weight_prefix(u: Seq<u16>, v: Seq<u16>, s: int, n: nat)
    requires
        n <= u.len(),
        n <= v.len(),
        forall|i: int| 0 <= i < n ==> #[trigger] u[i] == v[i],
    ensures
        state_weight(u, s, n) == state_weight(v, s, n),
    decreases n,
{
    if n > 0 {
        lemma_weight_prefix(u, v, s, (n - 1) as nat);
        assert(u[n - 1] == v[n - 1]);
    }
}

/// The weight does not depend on the order of the polynomials.
proof fn lemma_weight_ascending(v: Seq<u16>, s: int)
    ensures
        state_weight(ascending(v), s, v.len()) == state_weight(v, s, v.len()),
    decreases v.len(),
{
    if v.len() > 0 {
        let r = v.drop_last();
        let t = ascending(r);
        lemma_weight_ascending(r, s);
        lemma_ascending(r);
        lemma_place_in_range(t, v.last());
        lemma_weight_insert(t, place_for(t, v.last()), v.last(), s);
        lemma_weight_prefix(v, r, s, r.len());
    }
}

proof fn lemma_place_in_range(s: Seq<u16>, x: u16)
    ensures
        0 <= place_for(s, x) <= s.len(),
    decreases s.len(),
{
    if s.len() > 0 && s.last() > x {
        lemma_place_in_range(s.drop_last(), x);
    }
}

/// Reversing all polynomials mirrors the weights.
proof fn lemma_weight_reversed(polys: Seq<u16>, order: nat, s: nat, n: nat)
    requires
        order <= 16,
        n <= polys.len(),
        s < pow2(order),
        forall|i: int| 0 <= i < polys.len() ==> #[trigger] polys[i] < pow2(order),
    ensures
        state_weight(
            Seq::new(polys.len(), |i: int| reversed(polys[i] as nat, order) as u16),
            reversed(s, order) as int,
            n,
        ) == state_weight(polys, s as int, n),
    decreases n,
{
    if n > 0 {
        let p = polys[n - 1] as nat;
        lemma_weight_reversed(polys, order, s, (n - 1) as nat);
        lemma_dot_reversed(s, p, order);
        lemma_reversed_bit(p, order, 0);
        lemma2_to64();
        if order < 16 {
            lemma_pow2_strictly_increases(order, 16);
        }
    }
}

/// A code and its reciprocal mirror each other.
pub proof fn lemma_reciprocal_mirrors(polys: Seq<u16>, order: nat)
    requires
        1 <= order <= 16,
        forall|i: int| 0 <= i < polys.len() ==> #[trigger] polys[i] < pow2(order),
    ensures
        mirrors(graph_of(polys, order), graph_of(reciprocal_of(polys, order), order)),
{
    let a = graph_of(polys, order);
    let v = Seq::new(polys.len(), |i: int| reversed(polys[i] as nat, order) as u16);
    let b = graph_of(ascending(v), order);
    lemma_ascending(v);
    assert forall|s: nat| s < pow2(order) implies b.weight(#[trigger] reversed(s, order) as int)
        == a.weight(s as int) by {
        lemma_weight_ascending(v, reversed(s, order) as int);
        lemma_weight_reversed(polys, order, s, polys.len());
    }
}

/// A walk from zero to zero without its last `order` steps, which are zeros, read
/// backwards and followed by as many zeros.
pub open spec fn turned(x: Seq<bool>, order: nat) -> Seq<bool> {
    let n = x.len() - order;
    Seq::new(x.len(), |i: int| i < n && x[n - 1 - i])
}

/// The last steps of a walk to zero are zeros.
proof fn lemma_ends_in_zeros(a: Graph, x: Seq<bool>, i: int)
    requires
        a.valid(),
        a.end(0, x) == 0,
        x.len() - a.order <= i < x.len(),
        0 <= i,
    ensures
        !x[i],
{
    let j = (x.len() - 1 - i) as nat;
    a.lemma_state_bit(x, j);
    lemma_zero_bits(j);
}

/// A walk that sets out from zero and comes back takes more than `order` steps.
proof fn lemma_detour_length(a: Graph, x: Seq<bool>)
    requires
        a.valid(),
        a.is_detour(x),
    ensures
        x.len() > a.order,
{
    if x.len() <= a.order {
        lemma_ends_in_zeros(a, x, 0);
    }
}

/// The states of the turned walk are those of the walk, mirrored, in the opposite
/// order.
proof fn lemma_turned_state(a: Graph, b: Graph, x: Seq<bool>, i: int)
    requires
        mirrors(a, b),
        x.len() > a.order,
        a.end(0, x) == 0,
        0 < i < x.len(),
    ensures
        b.end(0, turned(x, a.order).take(i)) == reversed(
            a.end(0, x.take(x.len() - i)) as nat,
            a.order,
        ),
        0 <= a.end(0, x.take(x.len() - i)) < pow2(a.order),
{
    let order = a.order;
    let y = turned(x, order);
    let (p, q) = (x.take(x.len() - i), y.take(i));
    lemma_pow2_pos(order);
    a.lemma_end_range(0, p);
    b.lemma_state_bit(q, 0);
    let s = a.end(0, p) as nat;
    let t = b.end(0, q) as nat;
    assert forall|j: nat| #[trigger] nat_bit(t, j) == nat_bit(reversed(s, order), j) by {
        b.lemma_state_bit(q, j);
        lemma_reversed_bit(s, order, j);
        if j < order {
            let k = (order - 1 - j) as nat;
            a.lemma_state_bit(p, k);
            // both ask for the same step of the walk
            let m = x.len() - i - 1 - k;
            if j < i && 0 <= m {
                assert(q[i - 1 - j] == y[i - 1 - j]);
                assert(x.len() - order - 1 - (i - 1 - j) == m);
            } else if j >= i && 0 <= m {
                assert(p[p.len() - 1 - k] == x[m]);
                lemma_ends_in_zeros(a, x, m);
            }
        }
    }
    lemma_same_bits(t, reversed(s, order));
}

/// Reversing keeps zero apart from the other states.
proof fn lemma_reversed_zero(s: nat, n: nat)
    requires
        s < pow2(n),
    ensures
        reversed(s, n) == 0 <==> s == 0,
{
    lemma_reversed_zero_is_zero(n);
    lemma_reversed_twice(s, n);
}

proof fn lemma_reversed_zero_is_zero(n: nat)
    ensures
        reversed(0, n) == 0,
    decreases n,
{
    if n > 0 {
        lemma_reversed_zero_is_zero((n - 1) as nat);
        lemma_zero_bits((n - 1) as nat);
    }
}

/// The costs of the walk and of the turned walk add up alike.
proof fn lemma_turned_cost(a: Graph, b: Graph, x: Seq<bool>, m: int)
    requires
        mirrors(a, b),
        x.len() > a.order,
        a.end(0, x) == 0,
        0 <= m < x.len(),
    ensures
        b.cost(0, turned(x, a.order).take(m)) + a.cost(0, x.take(x.len() - 1 - m)) == a.cost(
            0,
            x.take(x.len() - 1),
        ),
    decreases m,
{
    let y = turned(x, a.order);
    if m == 0 {
        assert(y.take(0) =~= Seq::<bool>::empty());
    } else {
        lemma_turned_cost(a, b, x, m - 1);
        lemma_turned_state(a, b, x, m);
        assert(y.take(m).drop_last() =~= y.take(m - 1));
        let p = x.take(x.len() - m);
        assert(p.drop_last() =~= x.take(x.len() - 1 - m));
        let s = a.end(0, p) as nat;
        assert(b.weight(reversed(s, a.order) as int) == a.weight(s as int));
    }
}

pub proof fn lemma_zero_weighs_nothing(polys: Seq<u16>, n: nat)
    ensures
        state_weight(polys, 0, n) == 0,
    decreases n,
{
    if n > 0 {
        lemma_zero_weighs_nothing(polys, (n - 1) as nat);
        lemma_dot_zero(polys[n - 1] as nat);
    }
}

proof fn lemma_dot_zero(p: nat)
    ensures
        !dot(0, p),
    decreases p,
{
    if p > 0 {
        lemma_dot_zero(p / 2);
    }
}

/// The turned walk: back at zero at its end, at the same cost, and at zero
/// before its end only where the walk is.
proof fn lemma_turned_walk(a: Graph, b: Graph, x: Seq<bool>)
    requires
        mirrors(a, b),
        a.is_detour(x),
    ensures
        turned(x, a.order).len() == x.len(),
        b.end(0, turned(x, a.order)) == 0,
        b.cost(0, turned(x, a.order)) == a.cost(0, x),
        x.len() > a.order,
        turned(x, a.order)[0] == x[x.len() - 1 - a.order],
        turned(turned(x, a.order), a.order) == x,
        a.stays_out(0, x.drop_last()) ==> b.stays_out(0, turned(x, a.order).drop_last()),
{
    let order = a.order;
    let y = turned(x, order);
    lemma_detour_length(a, x);
    lemma_turned_cost(a, b, x, x.len() - 1);
    assert(x.take(0) =~= Seq::<bool>::empty());
    assert(y.drop_last() =~= y.take(x.len() - 1));
    assert(x.drop_last() =~= x.take(x.len() - 1));
    b.lemma_state_bit(y, 0);
    let t = b.end(0, y) as nat;
    assert forall|j: nat| #[trigger] nat_bit(t, j) == nat_bit(0, j) by {
        b.lemma_state_bit(y, j);
        lemma_zero_bits(j);
    }
    lemma_same_bits(t, 0);
    lemma_zero_weighs_nothing(a.polys, a.rate);
    lemma_zero_weighs_nothing(b.polys, b.rate);
    assert(turned(y, order) =~= x) by {
        assert forall|i: int| 0 <= i < x.len() implies #[trigger] turned(y, order)[i] == x[i] by {
            if i >= x.len() - order {
                lemma_ends_in_zeros(a, x, i);
            }
        }
    }
    if a.stays_out(0, x.drop_last()) {
        let z = y.drop_last();
        assert forall|i: int| 0 < i <= z.len() implies #[trigger] b.end(0, z.take(i)) != 0 by {
            assert(z.take(i) =~= y.take(i));
            lemma_turned_state(a, b, x, i);
            let w = x.drop_last();
            assert(w.take(x.len() - i) =~= x.take(x.len() - i));
            assert(a.end(0, w.take(x.len() - i)) != 0);
            lemma_reversed_zero(a.end(0, x.take(x.len() - i)) as nat, order);
        }
    }
}

/// A detour without what follows its first return.
proof fn lemma_shortest_return(a: Graph, x: Seq<bool>) -> (y: Seq<bool>)
    requires
        a.valid(),
        a.is_detour(x),
    ensures
        a.is_detour(y),
        a.cost(0, y) <= a.cost(0, x),
        a.stays_out(0, y.drop_last()),
    decreases x.len(),
{
    let w = x.drop_last();
    if a.stays_out(0, w) {
        x
    } else {
        let i = choose|i: int| 0 < i <= w.len() && #[trigger] a.end(0, w.take(i)) == 0;
        let y = x.take(i);
        assert(w.take(i) =~= y);
        assert(y + x.skip(i) =~= x);
        a.lemma_join(0, y, x.skip(i));
        lemma_shortest_return(a, y)
    }
}

/// The step before the last zeros of a walk that returns to zero once is a one.
proof fn lemma_last_one(a: Graph, x: Seq<bool>)
    requires
        a.valid(),
        a.is_detour(x),
        a.stays_out(0, x.drop_last()),
    ensures
        x.len() > a.order,
        x[x.len() - 1 - a.order],
{
    lemma_detour_length(a, x);
    if !x[x.len() - 1 - a.order] {
        let w = x.drop_last();
        assert(w.take(w.len() as int) =~= w);
        a.lemma_state_bit(w, 0);
        let t = a.end(0, w) as nat;
        assert forall|j: nat| #[trigger] nat_bit(t, j) == nat_bit(0, j) by {
            a.lemma_state_bit(w, j);
            lemma_zero_bits(j);
            if j < a.order {
                let i = w.len() - 1 - j;
                if i >= x.len() - a.order {
                    lemma_ends_in_zeros(a, x, i);
                }
            }
        }
        lemma_same_bits(t, 0);
        assert(a.end(0, w.take(w.len() as int)) != 0);
    }
}

proof fn lemma_no_further(a: Graph, b: Graph)
    requires
        mirrors(a, b),
    ensures
        b.free_distance() <= a.free_distance(),
{
    let x = a.lemma_free_distance_attained();
    let y = lemma_shortest_return(a, x);
    lemma_last_one(a, y);
    lemma_turned_walk(a, b, y);
    b.lemma_free_distance(turned(y, a.order));
}

/// The reciprocal of a code has the same free distance.
pub proof fn lemma_reciprocal_free_distance(polys: Seq<u16>, order: nat)
    requires
        1 <= order <= 16,
        forall|i: int| 0 <= i < polys.len() ==> #[trigger] polys[i] < pow2(order),
    ensures
        graph_of(reciprocal_of(polys, order), order).free_distance() == graph_of(
            polys,
            order,
        ).free_distance(),
{
    let (a, b) = (graph_of(polys, order), graph_of(reciprocal_of(polys, order), order));
    lemma_reciprocal_mirrors(polys, order);
    lemma_mirrors_back(a, b);
    lemma_no_further(a, b);
    lemma_no_further(b, a);
}

/// The walks of up to `k` steps from `s` that cost `w` and come to zero at their
/// end, not before.
pub open spec fn loops_from(a: Graph, s: int, w: int, k: nat) -> Set<Seq<bool>> {
    Set::new(
        |x: Seq<bool>|
            {
                &&& 0 < x.len() <= k
                &&& a.end(s, x) == 0
                &&& a.stays_out(s, x.drop_last())
                &&& a.cost(s, x) == w
            },
    )
}

/// Those that start with `b`.
spec fn loops_via(a: Graph, s: int, b: bool, w: int, k: nat) -> Set<Seq<bool>> {
    Set::new(|x: Seq<bool>| loops_from(a, s, w, k).contains(x) && x[0] == b)
}

/// A step from `s` and a walk from where it leads.
proof fn lemma_return_prepend(a: Graph, s: int, b: bool, w: int, k: nat, y: Seq<bool>)
    requires
        k > 0,
        a.next(s, b) != 0,
    ensures
        loops_from(a, s, w, k).contains(seq![b] + y) <==> loops_from(
            a,
            a.next(s, b),
            w - a.weight(a.next(s, b)),
            (k - 1) as nat,
        ).contains(y),
{
    let q = a.next(s, b);
    let x = seq![b] + y;
    a.lemma_prepend(s, b, y);
    if y.len() == 0 {
        assert(a.end(q, y) == q);
    } else {
        assert(x.drop_last() =~= seq![b] + y.drop_last());
        if a.stays_out(q, y.drop_last()) {
            assert forall|i: int| 0 < i <= x.len() - 1 implies #[trigger] a.end(
                s,
                x.drop_last().take(i),
            ) != 0 by {
                let z = y.drop_last().take(i - 1);
                assert(x.drop_last().take(i) =~= seq![b] + z);
                a.lemma_prepend(s, b, z);
                if i == 1 {
                    assert(z =~= Seq::<bool>::empty());
                } else {
                    assert(a.end(q, y.drop_last().take(i - 1)) != 0);
                }
            }
        }
        if a.stays_out(s, x.drop_last()) {
            assert forall|i: int| 0 < i <= y.len() - 1 implies #[trigger] a.end(
                q,
                y.drop_last().take(i),
            ) != 0 by {
                let z = y.drop_last().take(i);
                assert(x.drop_last().take(i + 1) =~= seq![b] + z);
                a.lemma_prepend(s, b, z);
                assert(a.end(s, x.drop_last().take(i + 1)) != 0);
            }
        }
    }
}

/// The count of the paths is the size of the set of walks.
proof fn lemma_paths_are_loops(a: Graph, s: int, w: int, k: nat)
    ensures
        loops_from(a, s, w, k).finite(),
        loops_from(a, s, w, k).len() == a.paths(s, w, k),
    decreases k,
{
    let all = loops_from(a, s, w, k);
    if k == 0 {
        assert(all =~= Set::<Seq<bool>>::empty());
    } else {
        lemma_paths_via_are_loops(a, s, false, w, k);
        lemma_paths_via_are_loops(a, s, true, w, k);
        let (f, t) = (loops_via(a, s, false, w, k), loops_via(a, s, true, w, k));
        assert(all =~= f + t);
        assert(f.disjoint(t));
        vstd::set_lib::lemma_set_disjoint_lens(f, t);
    }
}

proof fn lemma_paths_via_are_loops(a: Graph, s: int, b: bool, w: int, k: nat)
    requires
        k > 0,
    ensures
        loops_via(a, s, b, w, k).finite(),
        loops_via(a, s, b, w, k).len() == a.paths_via(s, b, w, k),
    decreases k, 0int,
{
    let via = loops_via(a, s, b, w, k);
    let q = a.next(s, b);
    let v = w - a.weight(q);
    let empty = Seq::<bool>::empty();
    assert forall|x: Seq<bool>| #[trigger] via.contains(x) implies {
        &&& x == seq![b] + x.drop_first()
        &&& v >= 0
        &&& q == 0 ==> x == seq![b]
    } by {
        assert(x =~= seq![b] + x.drop_first());
        a.lemma_first(s, x);
        if q == 0 && x.len() > 1 {
            let z = x.drop_last();
            assert(z.take(1) =~= seq![b] + empty);
            a.lemma_prepend(s, b, empty);
            assert(a.end(s, z.take(1)) != 0);
        }
        if q == 0 {
            assert(x =~= seq![b]);
        }
    }
    if v < 0 {
        assert(via =~= Set::<Seq<bool>>::empty());
    } else if q == 0 {
        let x = seq![b];
        assert(x =~= seq![b] + empty);
        a.lemma_prepend(s, b, empty);
        assert(a.stays_out(s, x.drop_last()));
        if v == 0 {
            assert(via =~= Set::<Seq<bool>>::empty().insert(x));
        } else {
            assert(via =~= Set::<Seq<bool>>::empty());
        }
    } else {
        let rest = loops_from(a, q, v, (k - 1) as nat);
        lemma_paths_are_loops(a, q, v, (k - 1) as nat);
        let f = |y: Seq<bool>| seq![b] + y;
        assert forall|x: Seq<bool>| #[trigger] via.contains(x) <==> rest.map(f).contains(x) by {
            if via.contains(x) {
                let y = x.drop_first();
                lemma_return_prepend(a, s, b, w, k, y);
                assert(f(y) == x);
            }
            if rest.map(f).contains(x) {
                let y = choose|y: Seq<bool>| rest.contains(y) && f(y) == x;
                lemma_return_prepend(a, s, b, w, k, y);
                assert(x[0] == b);
            }
        }
        assert(rest.map(f) =~= via);
        assert forall|y: Seq<bool>, z: Seq<bool>|
            rest.contains(y) && rest.contains(z) && #[trigger] f(y) == #[trigger] f(z) implies y
            == z by {
            assert((seq![b] + y).drop_first() =~= y);
            assert((seq![b] + z).drop_first() =~= z);
        }
        vstd::set_lib::lemma_map_size(rest, via, f);
    }
}

/// A walk from zero that costs something and comes back sets out at once.
proof fn lemma_return_is_detour(a: Graph, x: Seq<bool>, w: int, k: nat)
    requires
        a.valid(),
        w > 0,
        loops_from(a, 0, w, k).contains(x),
    ensures
        a.is_detour(x),
{
    if !x[0] {
        a.lemma_first(0, x);
        a.lemma_next(0, false);
        lemma_zero_weighs_nothing(a.polys, a.rate);
        if x.len() > 1 {
            let z = x.drop_last();
            let empty = Seq::<bool>::empty();
            assert(z.take(1) =~= seq![false] + empty);
            a.lemma_prepend(0, false, empty);
            assert(a.end(0, z.take(1)) != 0);
        } else {
            assert(x.drop_first() =~= Seq::<bool>::empty());
        }
    }
}

/// Every walk of one code turns into one of the other, and no two into the same.
proof fn lemma_no_fewer_paths(a: Graph, b: Graph, w: int, k: nat)
    requires
        mirrors(a, b),
        w > 0,
    ensures
        a.paths(0, w, k) <= b.paths(0, w, k),
{
    let (p, q) = (loops_from(a, 0, w, k), loops_from(b, 0, w, k));
    lemma_paths_are_loops(a, 0, w, k);
    lemma_paths_are_loops(b, 0, w, k);
    let f = |x: Seq<bool>| turned(x, a.order);
    assert forall|x: Seq<bool>| #[trigger] p.contains(x) implies q.contains(f(x)) && turned(
        f(x),
        a.order,
    ) == x by {
        lemma_return_is_detour(a, x, w, k);
        lemma_turned_walk(a, b, x);
    }
    let image = p.map(f);
    assert forall|x: Seq<bool>, y: Seq<bool>|
        p.contains(x) && p.contains(y) && #[trigger] f(x) == #[trigger] f(y) implies x == y by {
        assert(turned(f(x), a.order) == x);
        assert(turned(f(y), a.order) == y);
    }
    vstd::set_lib::lemma_map_size(p, image, f);
    assert(image.subset_of(q)) by {
        assert forall|y: Seq<bool>| image.contains(y) implies q.contains(y) by {
            let x = choose|x: Seq<bool>| p.contains(x) && f(x) == y;
            assert(q.contains(f(x)));
        }
    }
    vstd::set_lib::lemma_len_subset(image, q);
}

/// The reciprocal of a code has as many paths of each weight: the codes share
/// their distance spectrum.
pub proof fn lemma_reciprocal_path_count(polys: Seq<u16>, order: nat, w: nat)
    requires
        1 <= order <= 16,
        forall|i: int| 0 <= i < polys.len() ==> #[trigger] polys[i] < pow2(order),
        w > 0,
    ensures
        graph_of(reciprocal_of(polys, order), order).path_count(w) == graph_of(
            polys,
            order,
        ).path_count(w),
{
    let (a, b) = (graph_of(polys, order), graph_of(reciprocal_of(polys, order), order));
    lemma_reciprocal_mirrors(polys, order);
    lemma_mirrors_back(a, b);
    lemma_no_fewer_paths(a, b, w as int, a.longest(w as int));
    lemma_no_fewer_paths(b, a, w as int, a.longest(w as int));
}

} // verus!
