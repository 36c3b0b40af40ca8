//! Why the bounds hold: the outputs for all inputs of a given length form a linear
//! code, and the free distance is no more than its least weight.

use super::bounds::{griesmer_allows, griesmer_length, halved, heller_term};
use super::gf2::{
    lemma_add_bits, lemma_add_bound, lemma_add_halves, lemma_degree_exists, lemma_mul_add_left,
    lemma_mul_degree, lemma_mul_zero, lemma_same_bits, lemma_zero_bits, poly_add, poly_mul,
};
use super::walk::{
    bits, lemma_input_bounds_free_distance, lemma_ones_below, ones_below, output_ones, Graph,
};
use super::weight::input_weight;
use crate::convolutional::trellis::nat_bit;
use crate::convolutional::util::ones;
use vstd::arithmetic::power2::{
    lemma2_to64, lemma_pow2_pos, lemma_pow2_strictly_increases, lemma_pow2_unfold, pow2,
};
use vstd::prelude::*;

verus! {

/// Doubling an input shifts its outputs, which weigh as much as before.
proof fn lemma_double_weight(polys: Seq<u16>, v: nat, n: nat)
    ensures
        input_weight(polys, 2 * v, n) == input_weight(polys, v, n),
    decreases n,
{
    if n > 0 {
        lemma_double_weight(polys, v, (n - 1) as nat);
        let g = polys[n - 1] as nat;
        let p = poly_mul(v, g);
        lemma_mul_zero(g);
        if v > 0 {
            assert((2 * v) / 2 == v);
            lemma_add_halves(0, 2 * p);
            assert(poly_mul(2 * v, g) == 2 * p);
        }
        assert(ones(2 * p) == ones(p)) by {
            if p > 0 {
                assert((2 * p) / 2 == p);
            }
        }
    }
}

/// No input but zero puts out less than the free distance.
pub proof fn lemma_output_weight(g: Graph, u: nat)
    requires
        g.valid(),
        g.fits(),
        u > 0,
    ensures
        g.free_distance() <= input_weight(g.polys, u, g.rate),
    decreases u,
{
    if u % 2 == 1 {
        lemma_input_bounds_free_distance(g, u);
    } else {
        lemma_output_weight(g, u / 2);
        lemma_double_weight(g.polys, u / 2, g.rate);
        assert(u == 2 * (u / 2));
    }
}

/// The outputs for inputs of `l` bits have `order + l - 1` bits.
proof fn lemma_output_size(u: nat, g: nat, l: nat, order: nat)
    requires
        u < pow2(l),
        g < pow2(order),
        l >= 1,
        order >= 1,
    ensures
        poly_mul(u, g) < pow2((l + order - 1) as nat),
{
    let n = (l + order - 1) as nat;
    lemma_mul_zero(u);
    lemma_mul_zero(g);
    lemma_pow2_pos(n);
    if u > 0 && g > 0 {
        let (p, q) = (lemma_degree_exists(u), lemma_degree_exists(g));
        lemma_mul_degree(u, g, p, q);
        if p >= l && p > l {
            lemma_pow2_strictly_increases(l, p);
        }
        if q >= order && q > order {
            lemma_pow2_strictly_increases(order, q);
        }
        if p + q + 1 < n {
            lemma_pow2_strictly_increases(p + q + 1, n);
        }
    }
}

/// All set bits of the outputs are among the lowest `order + l - 1`.
proof fn lemma_output_ones(g: Graph, u: nat, l: nat, r: nat)
    requires
        g.valid(),
        g.fits(),
        u < pow2(l),
        l >= 1,
        r <= g.rate,
    ensures
        output_ones(g.polys, u, (l + g.order - 1) as nat, r) == input_weight(g.polys, u, r),
    decreases r,
{
    if r > 0 {
        lemma_output_ones(g, u, l, (r - 1) as nat);
        let p = g.polys[r - 1] as nat;
        lemma_output_size(u, p, l, g.order);
        lemma_ones_below(poly_mul(u, p), (l + g.order - 1) as nat);
    }
}

// The average weight.

/// How many inputs below `m` set bit `j` of the product with `g`.
spec fn column(g: nat, j: nat, m: nat) -> nat
    decreases m,
{
    if m == 0 {
        0
    } else {
        column(g, j, (m - 1) as nat) + (if nat_bit(poly_mul((m - 1) as nat, g), j) {
            1nat
        } else {
            0nat
        })
    }
}

/// The product of an input with one more bit below.
proof fn lemma_product_low(v: nat, e: nat, g: nat, j: nat)
    requires
        e <= 1,
    ensures
        nat_bit(poly_mul(2 * v + e, g), j) == ((e == 1 && nat_bit(g, j)) != (j > 0 && nat_bit(
            poly_mul(v, g),
            (j - 1) as nat,
        ))),
{
    let u = 2 * v + e;
    let p = poly_mul(v, g);
    lemma_mul_zero(g);
    lemma_zero_bits(j);
    if u == 0 {
        if j > 0 {
            lemma_zero_bits((j - 1) as nat);
        }
    } else {
        assert(u / 2 == v && u % 2 == e);
        let low = if e == 1 {
            g
        } else {
            0
        };
        assert(poly_mul(u, g) == poly_add(low, 2 * p));
        lemma_add_bits(low, 2 * p, j);
        assert((2 * p) % 2 == 0 && (2 * p) / 2 == p);
    }
}

/// Inputs come in pairs that differ in their lowest bit.
proof fn lemma_column_pairs(g: nat, j: nat, m: nat)
    ensures
        nat_bit(g, j) ==> column(g, j, 2 * m) == m,
        !nat_bit(g, j) && j > 0 ==> column(g, j, 2 * m) == 2 * column(g, (j - 1) as nat, m),
        !nat_bit(g, j) && j == 0 ==> column(g, j, 2 * m) == 0,
    decreases m,
{
    if m > 0 {
        let v = (m - 1) as nat;
        lemma_column_pairs(g, j, v);
        lemma_product_low(v, 0, g, j);
        lemma_product_low(v, 1, g, j);
        assert((2 * m - 1) as nat == 2 * v + 1);
        assert((2 * m - 2) as nat == 2 * v);
        assert(column(g, j, 2 * m) == column(g, j, (2 * m - 1) as nat) + (if nat_bit(
            poly_mul(2 * v + 1, g),
            j,
        ) {
            1nat
        } else {
            0nat
        }));
        assert(column(g, j, (2 * m - 1) as nat) == column(g, j, 2 * v) + (if nat_bit(
            poly_mul(2 * v + 0, g),
            j,
        ) {
            1nat
        } else {
            0nat
        }));
    }
}

/// No bit of the output is set for more than half of the inputs.
proof fn lemma_column_half(g: nat, j: nat, l: nat)
    ensures
        2 * column(g, j, pow2(l)) <= pow2(l),
    decreases l,
{
    lemma2_to64();
    if l == 0 {
        lemma_mul_zero(g);
        lemma_zero_bits(j);
        assert(column(g, j, 0) == 0);
        assert(column(g, j, 1) == 0);
    } else {
        let m = pow2((l - 1) as nat);
        lemma_pow2_unfold(l);
        lemma_column_pairs(g, j, m);
        if !nat_bit(g, j) && j > 0 {
            lemma_column_half(g, (j - 1) as nat, (l - 1) as nat);
        }
    }
}

/// The set bits of all outputs of one polynomial, by column.
spec fn columns(g: nat, n: nat, m: nat) -> nat
    decreases n,
{
    if n == 0 {
        0
    } else {
        columns(g, (n - 1) as nat, m) + column(g, (n - 1) as nat, m)
    }
}

/// One more input adds its ones to the columns.
proof fn lemma_columns_step(g: nat, n: nat, m: nat)
    ensures
        columns(g, n, m + 1) == columns(g, n, m) + ones_below(poly_mul(m, g), n),
        columns(g, n, 0) == 0,
    decreases n,
{
    if n > 0 {
        lemma_columns_step(g, (n - 1) as nat, m);
    }
}

proof fn lemma_columns_half(g: nat, n: nat, l: nat)
    ensures
        2 * columns(g, n, pow2(l)) <= n * pow2(l),
    decreases n,
{
    let p = pow2(l);
    if n > 0 {
        let k = (n - 1) as nat;
        lemma_columns_half(g, k, l);
        lemma_column_half(g, k, l);
        assert(n * p == k * p + p) by (nonlinear_arith)
            requires
                n == k + 1,
        ;
    } else {
        assert(0 * p == 0);
    }
}

/// The set bits of all outputs of the first `r` polynomials.
spec fn all_columns(polys: Seq<u16>, n: nat, r: nat, m: nat) -> nat
    decreases r,
{
    if r == 0 {
        0
    } else {
        all_columns(polys, n, (r - 1) as nat, m) + columns(polys[r - 1] as nat, n, m)
    }
}

proof fn lemma_all_columns_step(polys: Seq<u16>, n: nat, r: nat, m: nat)
    ensures
        all_columns(polys, n, r, m + 1) == all_columns(polys, n, r, m) + output_ones(
            polys,
            m,
            n,
            r,
        ),
        all_columns(polys, n, r, 0) == 0,
    decreases r,
{
    if r > 0 {
        lemma_all_columns_step(polys, n, (r - 1) as nat, m);
        lemma_columns_step(polys[r - 1] as nat, n, m);
    }
}

proof fn lemma_all_columns_half(polys: Seq<u16>, n: nat, r: nat, l: nat)
    ensures
        2 * all_columns(polys, n, r, pow2(l)) <= r * n * pow2(l),
    decreases r,
{
    let p = pow2(l);
    if r > 0 {
        let k = (r - 1) as nat;
        lemma_all_columns_half(polys, n, k, l);
        lemma_columns_half(polys[r - 1] as nat, n, l);
        assert(r * n * p == k * n * p + n * p) by (nonlinear_arith)
            requires
                r == k + 1,
        ;
    } else {
        assert(0 * n * p == 0) by (nonlinear_arith);
    }
}

/// Every input but zero adds at least the free distance.
proof fn lemma_total_weight(g: Graph, l: nat, m: nat)
    requires
        g.valid(),
        g.fits(),
        l >= 1,
        1 <= m <= pow2(l),
    ensures
        all_columns(g.polys, (l + g.order - 1) as nat, g.rate, m) >= (m - 1) * g.free_distance(),
    decreases m,
{
    let n = (l + g.order - 1) as nat;
    let d = g.free_distance();
    if m > 1 {
        let v = (m - 1) as nat;
        lemma_total_weight(g, l, v);
        lemma_all_columns_step(g.polys, n, g.rate, v);
        lemma_output_ones(g, v, l, g.rate);
        lemma_output_weight(g, v);
        assert((m - 1) * d == (v - 1) * d + d) by (nonlinear_arith)
            requires
                v == m - 1,
        ;
    } else {
        assert(0 * d == 0);
    }
}

/// The Heller bound holds: the free distance is no more than any of its terms.
pub proof fn lemma_heller_bounds(g: Graph, k: nat)
    requires
        g.valid(),
        g.fits(),
        k >= 1,
    ensures
        g.free_distance() <= heller_term(g.rate as int, g.order as int, k),
{
    let n = (k + g.order - 1) as nat;
    let p = pow2(k) as int;
    let d = g.free_distance() as int;
    let r = g.rate as int;
    lemma2_to64();
    lemma_pow2_unfold(k);
    lemma_pow2_pos((k - 1) as nat);
    lemma_total_weight(g, k, pow2(k));
    lemma_all_columns_half(g.polys, n, g.rate, k);
    let top = r * p * n;
    assert(r * n * p == top) by (nonlinear_arith)
        requires
            top == r * p * n,
    ;
    let q = 2 * (p - 1);
    assert(d * q <= top) by (nonlinear_arith)
        requires
            2 * ((p - 1) * d) <= top,
            q == 2 * (p - 1),
    ;
    assert(d <= top / q) by (nonlinear_arith)
        requires
            d * q <= top,
            q > 0,
    ;
}

// The residual code.

/// The set bits of a word.
pub open spec fn word_weight(x: Seq<bool>) -> nat
    decreases x.len(),
{
    if x.len() == 0 {
        0
    } else {
        word_weight(x.drop_last()) + (if x.last() {
            1nat
        } else {
            0nat
        })
    }
}

/// The sum of two words.
pub open spec fn word_sum(x: Seq<bool>, y: Seq<bool>) -> Seq<bool> {
    Seq::new(x.len(), |i: int| x[i] != y[i])
}

pub open spec fn zero_word(n: nat) -> Seq<bool> {
    Seq::new(n, |i: int| false)
}

/// A linear code of length `n` whose nonzero words weigh at least `d`.
pub open spec fn is_linear_code(code: Set<Seq<bool>>, n: nat, d: nat) -> bool {
    &&& code.finite()
    &&& code.contains(zero_word(n))
    &&& forall|x: Seq<bool>| #[trigger] code.contains(x) ==> x.len() == n
    &&& forall|x: Seq<bool>, y: Seq<bool>|
        #![trigger word_sum(x, y)]
        code.contains(x) && code.contains(y) ==> code.contains(word_sum(x, y))
    &&& forall|x: Seq<bool>| #[trigger] code.contains(x) && x != zero_word(n) ==> word_weight(x) >= d
}

/// The bits of `x` where `c` has none.
spec fn rest_of(c: Seq<bool>, x: Seq<bool>) -> Seq<bool>
    decreases c.len(),
{
    if c.len() == 0 {
        Seq::empty()
    } else {
        let r = rest_of(c.drop_last(), x.drop_last());
        if c.last() {
            r
        } else {
            r.push(x.last())
        }
    }
}

proof fn lemma_weight_push(x: Seq<bool>, b: bool)
    ensures
        word_weight(x.push(b)) == word_weight(x) + (if b {
            1nat
        } else {
            0nat
        }),
{
    assert(x.push(b).drop_last() =~= x);
}

proof fn lemma_sum_drop(x: Seq<bool>, y: Seq<bool>)
    requires
        x.len() == y.len(),
        x.len() > 0,
    ensures
        word_sum(x, y).drop_last() == word_sum(x.drop_last(), y.drop_last()),
{
    assert(word_sum(x, y).drop_last() =~= word_sum(x.drop_last(), y.drop_last()));
}

/// Leaving the bits of `c` out: lengths, sums, and weights.
proof fn lemma_rest(c: Seq<bool>, x: Seq<bool>, y: Seq<bool>)
    requires
        x.len() == c.len(),
        y.len() == c.len(),
    ensures
        rest_of(c, x).len() + word_weight(c) == c.len(),
        word_sum(rest_of(c, x), rest_of(c, y)) == rest_of(c, word_sum(x, y)),
        rest_of(c, zero_word(c.len())) == zero_word(rest_of(c, x).len()),
        word_weight(x) + word_weight(word_sum(x, c)) == word_weight(c) + 2 * word_weight(
            rest_of(c, x),
        ),
        rest_of(c, word_sum(x, c)) == rest_of(c, x),
    decreases c.len(),
{
    let z = zero_word(c.len());
    if c.len() == 0 {
        assert(word_sum(rest_of(c, x), rest_of(c, y)) =~= Seq::<bool>::empty());
        assert(zero_word(0) =~= Seq::<bool>::empty());
    } else {
        let (c1, x1, y1) = (c.drop_last(), x.drop_last(), y.drop_last());
        lemma_rest(c1, x1, y1);
        lemma_rest(c1, y1, x1);
        lemma_sum_drop(x, y);
        lemma_sum_drop(x, c);
        assert(z.drop_last() =~= zero_word(c1.len()));
        let (rx, ry) = (rest_of(c1, x1), rest_of(c1, y1));
        if !c.last() {
            assert(word_sum(rx.push(x.last()), ry.push(y.last())) =~= word_sum(rx, ry).push(
                x.last() != y.last(),
            ));
            assert(zero_word(rx.len()).push(false) =~= zero_word(rx.len() + 1));
            lemma_weight_push(rx, x.last());
        }
    }
}

proof fn lemma_word_zero(x: Seq<bool>)
    ensures
        word_weight(x) == 0 <==> x == zero_word(x.len()),
    decreases x.len(),
{
    let z = zero_word(x.len());
    if x.len() == 0 {
        assert(x =~= z);
    } else {
        let y = x.drop_last();
        lemma_word_zero(y);
        assert(z.drop_last() =~= zero_word(y.len()));
        if word_weight(x) == 0 {
            assert(x =~= y.push(false));
            assert(x =~= z);
        }
    }
}

/// A nonzero word has a set bit.
proof fn lemma_some_bit(x: Seq<bool>) -> (p: int)
    requires
        x != zero_word(x.len()),
    ensures
        0 <= p < x.len(),
        x[p],
{
    if forall|i: int| 0 <= i < x.len() ==> !(#[trigger] x[i]) {
        assert(x =~= zero_word(x.len()));
    }
    choose|i: int| 0 <= i < x.len() && #[trigger] x[i]
}

/// A code with more words than one has a nonzero word of least weight.
proof fn lemma_lightest_word(code: Set<Seq<bool>>, n: nat, x: Seq<bool>) -> (c: Seq<bool>)
    requires
        code.contains(x),
        x != zero_word(n),
    ensures
        code.contains(c),
        c != zero_word(n),
        word_weight(c) <= word_weight(x),
        forall|y: Seq<bool>|
            #[trigger] code.contains(y) && y != zero_word(n) ==> word_weight(c) <= word_weight(y),
    decreases word_weight(x),
{
    if forall|y: Seq<bool>|
        #[trigger] code.contains(y) && y != zero_word(n) ==> word_weight(x) <= word_weight(y) {
        x
    } else {
        let y = choose|y: Seq<bool>|
            #[trigger] code.contains(y) && y != zero_word(n) && word_weight(x) > word_weight(y);
        lemma_lightest_word(code, n, y)
    }
}

/// The words of a code with the bits of its lightest word left out.
spec fn residual(code: Set<Seq<bool>>, c: Seq<bool>) -> Set<Seq<bool>> {
    code.map(|x: Seq<bool>| rest_of(c, x))
}

/// The lightest word and zero are the only words that leave nothing.
proof fn lemma_leaves_nothing(code: Set<Seq<bool>>, n: nat, d: nat, c: Seq<bool>, x: Seq<bool>)
    requires
        is_linear_code(code, n, d),
        code.contains(c),
        c != zero_word(n),
        forall|y: Seq<bool>|
            #[trigger] code.contains(y) && y != zero_word(n) ==> word_weight(c) <= word_weight(y),
        code.contains(x),
        x != zero_word(n),
        x != c,
    ensures
        2 * word_weight(rest_of(c, x)) >= word_weight(c),
        word_weight(c) >= 1,
        rest_of(c, x) != zero_word(rest_of(c, x).len()),
{
    lemma_rest(c, x, x);
    let s = word_sum(x, c);
    assert(code.contains(s));
    if s == zero_word(n) {
        assert forall|i: int| 0 <= i < n implies x[i] == c[i] by {
            assert(s[i] == zero_word(n)[i]);
        }
        assert(x =~= c);
    }
    lemma_word_zero(c);
    lemma_word_zero(rest_of(c, x));
}

/// The residual code has half as many words, and they keep half of the distance.
proof fn lemma_residual(code: Set<Seq<bool>>, n: nat, d: nat, c: Seq<bool>)
    requires
        is_linear_code(code, n, d),
        d >= 1,
        code.contains(c),
        c != zero_word(n),
        forall|y: Seq<bool>|
            #[trigger] code.contains(y) && y != zero_word(n) ==> word_weight(c) <= word_weight(y),
    ensures
        word_weight(c) <= n,
        is_linear_code(residual(code, c), (n - word_weight(c)) as nat, halved(d as int, 1) as nat),
        code.len() == 2 * residual(code, c).len(),
{
    let f = |x: Seq<bool>| rest_of(c, x);
    let res = residual(code, c);
    let z = zero_word(n);
    lemma_rest(c, z, z);
    let m = rest_of(c, z).len();
    assert(m == n - word_weight(c));
    code.lemma_map_finite(f);
    lemma2_to64();
    // linear
    assert(res.contains(f(z)));
    assert forall|x: Seq<bool>| #[trigger] res.contains(x) implies x.len() == m by {
        let a = choose|a: Seq<bool>| code.contains(a) && f(a) == x;
        lemma_rest(c, a, a);
    }
    assert forall|x: Seq<bool>, y: Seq<bool>|
        #![trigger word_sum(x, y)]
        res.contains(x) && res.contains(y) implies res.contains(word_sum(x, y)) by {
        let a = choose|a: Seq<bool>| code.contains(a) && f(a) == x;
        let b = choose|b: Seq<bool>| code.contains(b) && f(b) == y;
        lemma_rest(c, a, b);
        assert(code.contains(word_sum(a, b)));
        assert(f(word_sum(a, b)) == word_sum(x, y));
    }
    assert forall|x: Seq<bool>| #[trigger] res.contains(x) && x != zero_word(m) implies word_weight(
        x,
    ) >= halved(d as int, 1) by {
        let a = choose|a: Seq<bool>| code.contains(a) && f(a) == x;
        lemma_rest(c, c, z);
        assert(word_sum(z, c) =~= c);
        lemma_rest(c, z, z);
        lemma_leaves_nothing(code, n, d, c, a);
        assert(word_weight(c) >= d);
    }
    // half the words: those without one of the bits of c
    let p = lemma_some_bit(c);
    let half = Set::new(|x: Seq<bool>| code.contains(x) && !x[p]);
    let other = Set::new(|x: Seq<bool>| code.contains(x) && x[p]);
    let g = |x: Seq<bool>| word_sum(x, c);
    assert(half.subset_of(code));
    vstd::set_lib::lemma_len_subset(half, code);
    assert forall|x: Seq<bool>| #[trigger] other.contains(x) <==> half.map(g).contains(x) by {
        if other.contains(x) {
            let y = word_sum(x, c);
            assert(word_sum(y, c) =~= x);
            assert(half.contains(y) && g(y) == x);
        }
        if half.map(g).contains(x) {
            let y = choose|y: Seq<bool>| half.contains(y) && g(y) == x;
            assert(code.contains(word_sum(y, c)));
        }
    }
    assert(half.map(g) =~= other);
    assert forall|x: Seq<bool>, y: Seq<bool>|
        half.contains(x) && half.contains(y) && #[trigger] g(x) == #[trigger] g(y) implies x
        == y by {
        assert(word_sum(g(x), c) =~= x);
        assert(word_sum(g(y), c) =~= y);
    }
    vstd::set_lib::lemma_map_size(half, other, g);
    assert(half + other =~= code);
    assert(half.disjoint(other));
    vstd::set_lib::lemma_set_disjoint_lens(half, other);
    // and nothing is lost of them
    assert forall|x: Seq<bool>| #[trigger] res.contains(x) <==> half.map(f).contains(x) by {
        if res.contains(x) {
            let a = choose|a: Seq<bool>| code.contains(a) && f(a) == x;
            if a[p] {
                let b = word_sum(a, c);
                lemma_rest(c, a, a);
                assert(half.contains(b) && f(b) == x);
            } else {
                assert(half.contains(a));
            }
        }
        if half.map(f).contains(x) {
            let a = choose|a: Seq<bool>| half.contains(a) && f(a) == x;
            assert(code.contains(a));
        }
    }
    assert(half.map(f) =~= res);
    assert forall|x: Seq<bool>, y: Seq<bool>|
        half.contains(x) && half.contains(y) && #[trigger] f(x) == #[trigger] f(y) implies x
        == y by {
        let s = word_sum(x, y);
        assert(code.contains(s));
        lemma_rest(c, x, y);
        assert(!s[p]);
        let r = rest_of(c, s);
        assert(word_sum(f(x), f(y)) =~= zero_word(m));
        if s != z {
            lemma_leaves_nothing(code, n, d, c, s);
        }
        assert forall|i: int| 0 <= i < n implies x[i] == y[i] by {
            assert(s[i] == z[i]);
        }
        assert(x =~= y);
    }
    vstd::set_lib::lemma_map_size(half, res, f);
}

/// Halving twice, rounding up, is halving by the product.
proof fn lemma_halved_again(d: int, j: nat)
    requires
        d >= 1,
    ensures
        halved(halved(d, 1), j) == halved(d, j + 1),
        halved(d, 1) >= 1,
        halved(d, 0) == d,
{
    let p = pow2(j) as int;
    lemma2_to64();
    lemma_pow2_pos(j);
    lemma_pow2_unfold(j + 1);
    let h = (d + 1) / 2;
    assert(halved(d, 1) == h);
    let (a, b) = (h + p - 1, d + 2 * p - 1);
    let (q, r) = (a / p, a % p);
    vstd::arithmetic::div_mod::lemma_fundamental_div_mod(a, p);
    assert(p * q == q * p) by (nonlinear_arith);
    // b is 2 * a or one more
    let e = b - 2 * a;
    assert(0 <= e <= 1);
    assert(q * (2 * p) == 2 * (q * p)) by (nonlinear_arith);
    vstd::arithmetic::div_mod::lemma_fundamental_div_mod_converse(b, 2 * p, q, 2 * r + e);
}

/// The length that the bound asks for, without its first term.
proof fn lemma_griesmer_unroll(d: int, k: nat)
    requires
        d >= 1,
    ensures
        griesmer_length(d, k + 1) == d + griesmer_length(halved(d, 1), k),
    decreases k,
{
    lemma_halved_again(d, 0);
    if k == 0 {
        assert(griesmer_length(d, 0) == 0);
        assert(griesmer_length(halved(d, 1), 0) == 0);
    } else {
        let m = (k - 1) as nat;
        lemma_griesmer_unroll(d, m);
        lemma_halved_again(d, m);
    }
}

/// The Griesmer bound for linear codes: a code with `2^k` words at distance `d`
/// is at least as long as the bound asks.
pub proof fn lemma_griesmer_length(code: Set<Seq<bool>>, n: nat, d: nat, k: nat)
    requires
        is_linear_code(code, n, d),
        d >= 1,
        code.len() == pow2(k),
    ensures
        griesmer_length(d as int, k) <= n,
    decreases k,
{
    lemma2_to64();
    if k > 0 {
        lemma_pow2_unfold(k);
        lemma_pow2_pos((k - 1) as nat);
        let z = zero_word(n);
        if forall|x: Seq<bool>| #[trigger] code.contains(x) ==> x == z {
            assert(code =~= Set::<Seq<bool>>::empty().insert(z));
        }
        let x = choose|x: Seq<bool>| #[trigger] code.contains(x) && x != z;
        let c = lemma_lightest_word(code, n, x);
        lemma_residual(code, n, d, c);
        lemma_halved_again(d as int, 0);
        lemma_griesmer_length(
            residual(code, c),
            (n - word_weight(c)) as nat,
            halved(d as int, 1) as nat,
            (k - 1) as nat,
        );
        lemma_griesmer_unroll(d as int, (k - 1) as nat);
    }
}

/// The outputs of the first `r` polynomials, `n` bits each.
spec fn output_word(polys: Seq<u16>, u: nat, n: nat, r: nat) -> Seq<bool>
    decreases r,
{
    if r == 0 {
        Seq::empty()
    } else {
        output_word(polys, u, n, (r - 1) as nat) + bits(poly_mul(u, polys[r - 1] as nat), n)
    }
}

proof fn lemma_weight_join(x: Seq<bool>, y: Seq<bool>)
    ensures
        word_weight(x + y) == word_weight(x) + word_weight(y),
    decreases y.len(),
{
    if y.len() == 0 {
        assert(x + y =~= x);
    } else {
        lemma_weight_join(x, y.drop_last());
        assert((x + y).drop_last() =~= x + y.drop_last());
    }
}

proof fn lemma_bits_weight(v: nat, n: nat)
    ensures
        word_weight(bits(v, n)) == ones_below(v, n),
    decreases n,
{
    if n > 0 {
        lemma_bits_weight(v, (n - 1) as nat);
        assert(bits(v, n).drop_last() =~= bits(v, (n - 1) as nat));
    }
}

proof fn lemma_output_word(polys: Seq<u16>, u: nat, n: nat, r: nat)
    ensures
        output_word(polys, u, n, r).len() == r * n,
        word_weight(output_word(polys, u, n, r)) == output_ones(polys, u, n, r),
        output_word(polys, 0, n, r) == zero_word(r * n),
    decreases r,
{
    if r > 0 {
        let k = (r - 1) as nat;
        lemma_output_word(polys, u, n, k);
        let v = poly_mul(u, polys[r - 1] as nat);
        lemma_weight_join(output_word(polys, u, n, k), bits(v, n));
        lemma_bits_weight(v, n);
        assert(r * n == k * n + n) by (nonlinear_arith)
            requires
                r == k + 1,
        ;
        lemma_mul_zero(polys[r - 1] as nat);
        assert forall|i: int| 0 <= i < n implies !(#[trigger] bits(0, n)[i]) by {
            lemma_zero_bits(i as nat);
        }
        assert(zero_word(k * n) + bits(0, n) =~= zero_word(r * n));
    } else {
        assert(0 * n == 0);
        assert(zero_word(0) =~= Seq::<bool>::empty());
    }
}

/// The output of a sum is the sum of the outputs.
proof fn lemma_output_sum(polys: Seq<u16>, u: nat, v: nat, n: nat, r: nat)
    ensures
        output_word(polys, poly_add(u, v), n, r) == word_sum(
            output_word(polys, u, n, r),
            output_word(polys, v, n, r),
        ),
    decreases r,
{
    lemma_output_word(polys, u, n, r);
    lemma_output_word(polys, v, n, r);
    if r > 0 {
        let k = (r - 1) as nat;
        let g = polys[r - 1] as nat;
        lemma_output_sum(polys, u, v, n, k);
        lemma_output_word(polys, u, n, k);
        lemma_output_word(polys, v, n, k);
        lemma_mul_add_left(u, v, g);
        let (a, b) = (poly_mul(u, g), poly_mul(v, g));
        assert forall|i: int| 0 <= i < n implies #[trigger] bits(poly_add(a, b), n)[i] == word_sum(
            bits(a, n),
            bits(b, n),
        )[i] by {
            lemma_add_bits(a, b, i as nat);
        }
        assert(bits(poly_add(a, b), n) =~= word_sum(bits(a, n), bits(b, n)));
        assert(output_word(polys, poly_add(u, v), n, r) =~= word_sum(
            output_word(polys, u, n, r),
            output_word(polys, v, n, r),
        ));
    } else {
        assert(word_sum(Seq::<bool>::empty(), Seq::<bool>::empty()) =~= Seq::<bool>::empty());
    }
}

/// Different inputs have a nonzero sum.
proof fn lemma_sum_nonzero(u: nat, v: nat)
    requires
        u != v,
    ensures
        poly_add(u, v) != 0,
{
    if poly_add(u, v) == 0 {
        assert forall|j: nat| #[trigger] nat_bit(u, j) == nat_bit(v, j) by {
            lemma_add_bits(u, v, j);
            lemma_zero_bits(j);
        }
        lemma_same_bits(u, v);
    }
}

/// A code whose free distance is at least `d` fills the length that the bound
/// asks of every message length.
proof fn lemma_message_length(g: Graph, d: nat, k: nat)
    requires
        g.valid(),
        g.fits(),
        1 <= d <= g.free_distance(),
        k >= 1,
    ensures
        griesmer_length(d as int, k) <= g.rate * (g.order + k - 1),
{
    let n = (k + g.order - 1) as nat;
    let total = g.rate * n;
    let p = pow2(k) as int;
    let f = |u: int| output_word(g.polys, u as nat, n, g.rate);
    let inputs = vstd::set_lib::set_int_range(0, p);
    vstd::set_lib::lemma_int_range(0, p);
    let code = inputs.map(f);
    lemma_pow2_pos(k);
    assert forall|u: nat| 0 < u < p implies word_weight(
        #[trigger] output_word(g.polys, u, n, g.rate),
    ) >= d by {
        lemma_output_word(g.polys, u, n, g.rate);
        lemma_output_ones(g, u, k, g.rate);
        lemma_output_weight(g, u);
    }
    assert forall|u: int, v: int|
        inputs.contains(u) && inputs.contains(v) && #[trigger] f(u) == #[trigger] f(v) implies u
        == v by {
        if u != v {
            lemma_sum_nonzero(u as nat, v as nat);
            lemma_add_bound(u as nat, v as nat, k);
            lemma_output_sum(g.polys, u as nat, v as nat, n, g.rate);
            lemma_output_word(g.polys, u as nat, n, g.rate);
            let s = output_word(g.polys, poly_add(u as nat, v as nat), n, g.rate);
            assert(s =~= zero_word(total));
            lemma_word_zero(s);
        }
    }
    vstd::set_lib::lemma_map_size(inputs, code, f);
    lemma_output_word(g.polys, 0, n, g.rate);
    assert(inputs.contains(0) && f(0) == zero_word(total));
    assert forall|x: Seq<bool>| #[trigger] code.contains(x) implies x.len() == total && (x
        != zero_word(total) ==> word_weight(x) >= d) by {
        let u = choose|u: int| inputs.contains(u) && f(u) == x;
        lemma_output_word(g.polys, u as nat, n, g.rate);
    }
    assert forall|x: Seq<bool>, y: Seq<bool>|
        #![trigger word_sum(x, y)]
        code.contains(x) && code.contains(y) implies code.contains(word_sum(x, y)) by {
        let u = choose|u: int| inputs.contains(u) && f(u) == x;
        let v = choose|v: int| inputs.contains(v) && f(v) == y;
        let s = poly_add(u as nat, v as nat);
        lemma_add_bound(u as nat, v as nat, k);
        lemma_output_sum(g.polys, u as nat, v as nat, n, g.rate);
        assert(inputs.contains(s as int) && f(s as int) == word_sum(x, y));
    }
    lemma_griesmer_length(code, total, d, k);
}

/// The Griesmer bound holds: where it rules a distance out, the free distance is
/// less.
pub proof fn lemma_griesmer_bounds(g: Graph, d: nat)
    requires
        g.valid(),
        g.fits(),
        d >= 1,
        !griesmer_allows(g.rate as int, g.order as int, d as int),
    ensures
        g.free_distance() < d,
{
    if g.free_distance() >= d {
        assert forall|k: nat| k >= 1 implies #[trigger] griesmer_length(d as int, k) <= g.rate * (
        g.order + k - 1) by {
            lemma_message_length(g, d, k);
        }
    }
}

} // verus!
