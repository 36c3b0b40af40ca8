//! What a decode hands out belongs to a codeword: as many linear factors as the error
//! locator has degrees account for every syndrome, so that taking the errors out leaves
//! a block that vanishes at every root of the generator.

use super::code::Code;
use super::decoder::{decode_result, DecodeError};
use super::decoding::{
    lemma_all_located, lemma_full_locator, lemma_location_of, lemma_point_nonzero,
    lemma_points_distinct, lemma_received_eval, lemma_root_power, lemma_roots_below,
    lemma_value_is_difference, message_of, received_poly, roots_below, valid_erasures,
};
use super::forney::lemma_forney;
use super::galois::{
    gf_div, gf_inv, gf_log, gf_mul, gf_pow, is_primitive, lemma_div, lemma_inv, lemma_inv_injective,
    lemma_log, lemma_mul_associates, lemma_mul_commutes, lemma_mul_distributes, lemma_mul_nonzero,
    lemma_mul_zero_one, lemma_pow_add, lemma_pow_nonzero, lemma_xor,
};
use super::massey::{
    geometric, is_power_sums, lemma_conv_geometric, lemma_conv_power_sums, lemma_massey_generates,
    lemma_massey_shape, lemma_reciprocals_distinct, massey, massey_generates, reciprocals,
};
use super::poly_model::{
    coef, conv, conv_terms, eval_terms, lemma_eval_add, lemma_eval_zero, lemma_roots_poly,
    poly_eval, roots_poly,
};
use super::restore::wrong_places;
use super::sums::{
    gf_sum, lemma_sum_add, lemma_sum_ext, lemma_sum_scale, lemma_sum_single, lemma_sum_split,
    lemma_sum_zero_tail,
};
use super::vandermonde::{distinct, power_sum, power_terms};
use vstd::prelude::*;

verus! {

/// The next power sum is the last point times this one, and a power sum over the other
/// points.
proof fn lemma_next_power_sum(p: u16, w: Seq<u8>, w2: Seq<u8>, xs: Seq<u8>, u: nat)
    requires
        is_primitive(p),
        xs.len() > 0,
        w.len() == xs.len(),
        w2.len() == xs.len() - 1,
        forall|t: int|
            0 <= t < w2.len() ==> #[trigger] w2[t] == gf_mul(p, w[t], xs[t] ^ xs.last()),
    ensures
        power_sum(p, w, xs, u + 1) == gf_mul(p, xs.last(), power_sum(p, w, xs, u)) ^ power_sum(
            p,
            w2,
            xs.drop_last(),
            u,
        ),
{
    let n = xs.len();
    let m = (n - 1) as nat;
    let z = xs.last();
    let fewer = xs.drop_last();
    let high = power_terms(p, w, xs, u + 1);
    let low = |t: int| gf_mul(p, z, power_terms(p, w, xs, u)(t));
    let both = |t: int| gf_mul(p, gf_mul(p, w[t], xs[t] ^ z), gf_pow(p, xs[t], u));
    assert forall|t: int| 0 <= t < n implies #[trigger] both(t) == high(t) ^ low(t) by {
        let (a, x, y) = (w[t], xs[t], gf_pow(p, xs[t], u));
        lemma_mul_distributes(p, x, z, a);
        lemma_mul_distributes(p, gf_mul(p, a, x), gf_mul(p, a, z), y);
        lemma_mul_associates(p, a, x, y);
        lemma_mul_commutes(p, a, z);
        lemma_mul_associates(p, z, a, y);
        assert(gf_pow(p, x, u + 1) == gf_mul(p, x, y));
    }
    lemma_sum_add(n, high, low, both);
    lemma_sum_scale(p, n, z, power_terms(p, w, xs, u), low);
    lemma_xor(z, z, 0);
    lemma_mul_zero_one(p, w[m as int]);
    lemma_mul_zero_one(p, gf_pow(p, z, u));
    assert(both(m as int) == 0);
    lemma_sum_zero_tail(m, n, both);
    lemma_sum_ext(m, power_terms(p, w2, fewer, u), both);
    let (a, b, c) = (
        power_sum(p, w, xs, u + 1),
        gf_mul(p, z, power_sum(p, w, xs, u)),
        power_sum(p, w2, fewer, u),
    );
    assert(a ^ b == c);
    lemma_xor(a, b, c);
    lemma_xor(b, c, a);
    lemma_xor(b, a, c);
}

/// Distinct points can be weighted so that their first power sums, as many as there are
/// points, are any given values.
proof fn lemma_weights_exist(p: u16, s: Seq<u8>, xs: Seq<u8>) -> (w: Seq<u8>)
    requires
        is_primitive(p),
        distinct(xs),
        xs.len() <= s.len(),
    ensures
        w.len() == xs.len(),
        forall|u: nat| u < xs.len() ==> #[trigger] power_sum(p, w, xs, u) == s[u as int],
    decreases xs.len(),
{
    if xs.len() == 0 {
        Seq::<u8>::empty()
    } else {
        let n = xs.len();
        let m = (n - 1) as nat;
        let z = xs.last();
        let fewer = xs.drop_last();
        let s2 = Seq::new(m, |u: int| s[u + 1] ^ gf_mul(p, z, s[u]));
        assert(distinct(fewer));
        let w2 = lemma_weights_exist(p, s2, fewer);
        let part = |t: int| gf_div(p, w2[t], xs[t] ^ z);
        let w = Seq::new(
            n,
            |t: int|
                if t < m {
                    part(t)
                } else {
                    s[0] ^ gf_sum(m, part)
                },
        );
        assert forall|t: int| 0 <= t < m implies #[trigger] w2[t] == gf_mul(p, w[t], xs[t] ^ z) by {
            assert(xs[t] != xs[m as int]);
            lemma_xor(xs[t], z, 0);
            lemma_div(p, w2[t], xs[t] ^ z);
        }
        assert forall|u: nat| u < n implies #[trigger] power_sum(p, w, xs, u) == s[u as int] by {
            lemma_weights_fit(p, s, xs, w, w2, part, u);
        }
        w
    }
}

proof fn lemma_weights_fit(
    p: u16,
    s: Seq<u8>,
    xs: Seq<u8>,
    w: Seq<u8>,
    w2: Seq<u8>,
    part: spec_fn(int) -> u8,
    u: nat,
)
    requires
        is_primitive(p),
        u < xs.len() <= s.len(),
        w.len() == xs.len(),
        w2.len() == xs.len() - 1,
        forall|t: int|
            0 <= t < w2.len() ==> #[trigger] w2[t] == gf_mul(p, w[t], xs[t] ^ xs.last()),
        forall|t: int| 0 <= t < w2.len() ==> #[trigger] part(t) == w[t],
        w.last() == s[0] ^ gf_sum(w2.len(), part),
        forall|v: nat|
            v < w2.len() ==> #[trigger] power_sum(p, w2, xs.drop_last(), v) == s[v as int + 1]
                ^ gf_mul(p, xs.last(), s[v as int]),
    ensures
        power_sum(p, w, xs, u) == s[u as int],
    decreases u,
{
    let n = xs.len();
    let m = (n - 1) as nat;
    if u == 0 {
        let f = power_terms(p, w, xs, 0);
        assert forall|t: int| 0 <= t < m implies #[trigger] f(t) == part(t) by {
            assert(part(t) == w[t]);
            lemma_mul_zero_one(p, w[t]);
        }
        lemma_sum_ext(m, f, part);
        lemma_mul_zero_one(p, w[m as int]);
        let a = gf_sum(m, part);
        assert(gf_sum(n, f) == gf_sum(m, f) ^ f(m as int));
        lemma_xor(a, s[0], 0);
        lemma_xor(s[0], a, 0);
    } else {
        let v = (u - 1) as nat;
        lemma_weights_fit(p, s, xs, w, w2, part, v);
        lemma_next_power_sum(p, w, w2, xs, v);
        let b = gf_mul(p, xs.last(), s[v as int]);
        assert(v + 1 == u);
        assert(power_sum(p, w2, xs.drop_last(), v) == s[u as int] ^ b);
        lemma_xor(b, s[u as int], b);
        lemma_xor(s[u as int], b, 0);
    }
}

/// A locator that vanishes at the reciprocals of the points generates their power sums.
proof fn lemma_sums_generated(p: u16, c: Seq<u8>, sums: Seq<u8>, w: Seq<u8>, xs: Seq<u8>, k: int)
    requires
        is_primitive(p),
        c.len() == xs.len() + 1,
        w.len() == xs.len(),
        is_power_sums(p, sums, w, xs),
        xs.len() <= k < sums.len(),
        forall|t: int| 0 <= t < xs.len() ==> #[trigger] xs[t] != 0,
        forall|t: int| 0 <= t < xs.len() ==> poly_eval(p, c, gf_inv(p, #[trigger] xs[t])) == 0,
    ensures
        conv(p, c, sums, k) == 0,
{
    let n = sums.len();
    lemma_conv_power_sums(p, c, sums, w, xs, k);
    let f = |t: int| gf_mul(p, w[t], conv(p, c, geometric(p, xs[t], n), k));
    assert forall|t: int| 0 <= t < xs.len() implies #[trigger] f(t) == 0 by {
        assert(xs[t] != 0);
        lemma_conv_geometric(p, c, xs[t], n, k);
        lemma_mul_zero_one(p, gf_pow(p, xs[t], k as nat));
        lemma_mul_zero_one(p, w[t]);
    }
    lemma_sum_zero_tail(0, xs.len(), f);
}

/// A locator that vanishes at the reciprocals of the points, and generates the
/// syndromes, carries their power sums on from the first ones to all.
proof fn lemma_sums_carry_on(p: u16, c: Seq<u8>, s: Seq<u8>, w: Seq<u8>, xs: Seq<u8>)
    requires
        is_primitive(p),
        c.len() == xs.len() + 1,
        c[0] == 1,
        w.len() == xs.len(),
        forall|t: int| 0 <= t < xs.len() ==> #[trigger] xs[t] != 0,
        forall|t: int| 0 <= t < xs.len() ==> poly_eval(p, c, gf_inv(p, #[trigger] xs[t])) == 0,
        forall|u: nat| u < xs.len() ==> #[trigger] power_sum(p, w, xs, u) == s[u as int],
        forall|k: int| xs.len() <= k < s.len() ==> #[trigger] conv(p, c, s, k) == 0,
    ensures
        is_power_sums(p, s, w, xs),
{
    let n = s.len();
    let sums = Seq::new(n, |k: int| power_sum(p, w, xs, k as nat));
    assert forall|k: int| xs.len() <= k < n implies #[trigger] conv(p, c, s, k) == conv(
        p,
        c,
        sums,
        k,
    ) by {
        lemma_sums_generated(p, c, sums, w, xs, k);
    }
    assert forall|k: int| 0 <= k < n implies #[trigger] s[k] == sums[k] by {
        lemma_same_recurrence(p, c, s, sums, xs.len(), k);
    }
    assert forall|k: int| 0 <= k < s.len() implies #[trigger] s[k] == power_sum(
        p,
        w,
        xs,
        k as nat,
    ) by {
        assert(s[k] == sums[k]);
    }
}

/// Sequences that start alike and of which a polynomial makes the same from its degree
/// on are the same.
proof fn lemma_same_recurrence(p: u16, c: Seq<u8>, s: Seq<u8>, r: Seq<u8>, l: nat, k: int)
    requires
        is_primitive(p),
        c.len() == l + 1,
        c[0] != 0,
        r.len() == s.len(),
        0 <= k < s.len(),
        forall|u: int| 0 <= u < l && u < s.len() ==> s[u] == #[trigger] r[u],
        forall|j: int| l <= j < s.len() ==> #[trigger] conv(p, c, s, j) == conv(p, c, r, j),
    ensures
        s[k] == r[k],
    decreases k,
{
    if k >= l {
        let f = conv_terms(p, c, s, k);
        let g = conv_terms(p, c, r, k);
        let f1 = |i: int| f(1 + i);
        let g1 = |i: int| g(1 + i);
        assert forall|i: int| 0 <= i < k implies #[trigger] f1(i) == g1(i) by {
            lemma_same_recurrence(p, c, s, r, l, k - (1 + i));
        }
        lemma_sum_ext(k as nat, f1, g1);
        lemma_sum_split(1, k as nat, f, f1);
        lemma_sum_split(1, k as nat, g, g1);
        assert(gf_sum(1, f) == gf_sum(0, f) ^ f(0));
        assert(gf_sum(1, g) == gf_sum(0, g) ^ g(0));
        let (a, b) = (gf_mul(p, c[0], s[k]), gf_mul(p, c[0], r[k]));
        lemma_xor(a, 0, 0);
        lemma_xor(b, 0, 0);
        let rest = gf_sum(k as nat, f1);
        assert(conv(p, c, s, k) == a ^ rest);
        assert(conv(p, c, r, k) == b ^ rest);
        lemma_xor(rest, a, 0);
        lemma_xor(rest, b, 0);
        assert(a == b);
        lemma_xor(s[k], r[k], 0);
        lemma_xor(a, b, 0);
        lemma_mul_distributes(p, s[k], r[k], c[0]);
        lemma_mul_nonzero(p, c[0], s[k] ^ r[k]);
    }
}

/// Changing one coefficient changes the value by the change times the power of the
/// point.
proof fn lemma_eval_update(p: u16, c: Seq<u8>, k: int, v: u8, x: u8)
    requires
        is_primitive(p),
        0 <= k < c.len(),
    ensures
        poly_eval(p, c.update(k, c[k] ^ v), x) == poly_eval(p, c, x) ^ gf_mul(
            p,
            v,
            gf_pow(p, x, k as nat),
        ),
{
    let single = Seq::new(
        c.len(),
        |j: int|
            if j == k {
                v
            } else {
                0u8
            },
    );
    let after = c.update(k, c[k] ^ v);
    assert forall|j: int| #[trigger] coef(after, j) == coef(c, j) ^ coef(single, j) by {
        lemma_xor(coef(c, j), 0, 0);
    }
    lemma_eval_add(p, c, single, after, x);
    let f = eval_terms(p, single, x);
    assert forall|j: int| 0 <= j < c.len() && j != k implies #[trigger] f(j) == 0 by {
        lemma_mul_zero_one(p, gf_pow(p, x, j as nat));
    }
    lemma_sum_single(c.len(), k, f);
}

/// What taking the errors out adds to the value at a root of the generator, and how
/// many places it changes.
proof fn lemma_corrected_value(
    code: Code,
    s: Seq<u8>,
    locator: Seq<u8>,
    roots: Seq<u8>,
    received: Seq<u8>,
    x: u8,
)
    requires
        code.valid(),
        received.len() == 255,
        forall|t: int|
            0 <= t < roots.len() ==> 0 <= code.location_of(#[trigger] roots[t]) < 255,
    ensures
        code.corrected(s, locator, roots, received).len() == 255,
        poly_eval(code.modulus, code.corrected(s, locator, roots, received), x) == poly_eval(
            code.modulus,
            received,
            x,
        ) ^ gf_sum(
            roots.len(),
            |t: int|
                gf_mul(
                    code.modulus,
                    code.error_value(s, locator, roots[t]),
                    gf_pow(code.modulus, x, code.location_of(roots[t]) as nat),
                ),
        ),
        wrong_places(
            received.reverse(),
            code.corrected(s, locator, roots, received).reverse(),
            |i: int| false,
        ).len() <= roots.len(),
    decreases roots.len(),
{
    let p = code.modulus;
    let f = |t: int|
        gf_mul(
            p,
            code.error_value(s, locator, roots[t]),
            gf_pow(p, x, code.location_of(roots[t]) as nat),
        );
    let flagged = |i: int| false;
    if roots.len() == 0 {
        lemma_xor(poly_eval(p, received, x), 0, 0);
        lemma_same_places(received.reverse(), flagged);
    } else {
        let m = (roots.len() - 1) as nat;
        let fewer = roots.drop_last();
        let g = |t: int|
            gf_mul(
                p,
                code.error_value(s, locator, fewer[t]),
                gf_pow(p, x, code.location_of(fewer[t]) as nat),
            );
        assert forall|t: int| 0 <= t < fewer.len() implies 0 <= code.location_of(
            #[trigger] fewer[t],
        ) < 255 by {
            assert(fewer[t] == roots[t]);
        }
        lemma_corrected_value(code, s, locator, fewer, received, x);
        let before = code.corrected(s, locator, fewer, received);
        let r = roots[m as int];
        let k = code.location_of(r);
        let v = code.error_value(s, locator, r);
        let after = before.update(k, before[k] ^ v);
        assert(code.corrected(s, locator, roots, received) == after);
        lemma_eval_update(p, before, k, v, x);
        assert forall|t: int| 0 <= t < m implies #[trigger] f(t) == g(t) by {}
        lemma_sum_ext(m, f, g);
        let (a, b) = (poly_eval(p, received, x), gf_sum(m, g));
        assert(gf_sum(roots.len(), f) == gf_sum(m, f) ^ f(m as int));
        lemma_xor(a, b, f(m as int));
        lemma_one_more_place(received.reverse(), before.reverse(), after.reverse(), 254 - k);
    }
}

proof fn lemma_same_places(a: Seq<u8>, flagged: spec_fn(int) -> bool)
    ensures
        wrong_places(a, a, flagged).len() == 0,
{
    broadcast use vstd::seq_lib::group_filter_ensures;

    let pred = |i: int| a[i] != a[i] && !flagged(i);
    let found = wrong_places(a, a, flagged);
    if found.len() > 0 {
        assert(pred(found[0]));
    }
}

/// A change in one place makes at most one more place differ.
proof fn lemma_one_more_place(a: Seq<u8>, b: Seq<u8>, c: Seq<u8>, k: int)
    requires
        a.len() == b.len() == c.len(),
        forall|i: int| 0 <= i < b.len() && i != k ==> b[i] == c[i],
    ensures
        wrong_places(a, c, |i: int| false).len() <= wrong_places(a, b, |i: int| false).len() + 1,
{
    let none = |i: int| false;
    let f = |i: int| b[i] != a[i] && !none(i);
    let g = |i: int| c[i] != a[i] && !none(i);
    assert forall|i: int| 0 <= i < a.len() && i != k implies #[trigger] f(i) == g(i) by {
        assert(b[i] == c[i]);
    }
    lemma_filter_one_more(f, g, k, a.len());
}

proof fn lemma_filter_one_more(
    f: spec_fn(int) -> bool,
    g: spec_fn(int) -> bool,
    k: int,
    n: nat,
)
    requires
        forall|i: int| 0 <= i < n && i != k ==> #[trigger] f(i) == g(i),
    ensures
        Seq::new(n, |i: int| i).filter(g).len() <= Seq::new(n, |i: int| i).filter(f).len() + (if 0
            <= k < n {
            1int
        } else {
            0
        }),
    decreases n,
{
    let all = Seq::new(n, |i: int| i);
    reveal(Seq::filter);
    if n > 0 {
        lemma_filter_one_more(f, g, k, (n - 1) as nat);
        assert(all.drop_last() =~= Seq::new((n - 1) as nat, |i: int| i));
        assert(all.last() == n - 1);
        assert(n - 1 != k ==> f(n - 1) == g(n - 1));
    }
}

/// The error that Forney's formula gives for a factor is the one that accounts for the
/// factor's part of the syndromes.
proof fn lemma_part_of_syndrome(
    code: Code,
    c: Seq<u8>,
    s: Seq<u8>,
    w: Seq<u8>,
    xs: Seq<u8>,
    t: int,
    i: int,
    k: int,
)
    requires
        code.valid(),
        code.valid_gap(),
        code.gap < 256,
        is_power_sums(code.modulus, s, w, xs),
        w.len() == xs.len(),
        xs.len() <= s.len(),
        c.len() == xs.len() + 1,
        c[0] != 0,
        distinct(xs),
        0 <= t < xs.len(),
        forall|j: int| 0 <= j < xs.len() ==> #[trigger] xs[j] != 0,
        forall|j: int|
            0 <= j < xs.len() ==> poly_eval(code.modulus, c, gf_inv(code.modulus, #[trigger] xs[j]))
                == 0,
        i >= 0,
        0 <= k < 255,
        code.point(k) == xs[t],
    ensures
        code.location_of(gf_inv(code.modulus, xs[t])) == k,
        gf_mul(
            code.modulus,
            code.error_value(s, c, gf_inv(code.modulus, xs[t])),
            gf_pow(code.modulus, code.root(i), k as nat),
        ) == gf_mul(code.modulus, w[t], gf_pow(code.modulus, xs[t], i as nat)),
{
    let p = code.modulus;
    let x = xs[t];
    let inv = gf_inv(p, x);
    let xf = gf_pow(p, x, code.first);
    assert(xs[t] != 0);
    lemma_location_of(code, k);
    lemma_pow_nonzero(p, x, code.first);
    lemma_inv(p, xf);
    let d = gf_mul(p, w[t], gf_inv(p, xf));
    lemma_mul_associates(p, w[t], gf_inv(p, xf), xf);
    lemma_mul_zero_one(p, w[t]);
    assert(gf_mul(p, d, xf) == w[t]);
    lemma_log(p, x);
    lemma_value_is_difference(p, gf_log(p, x), code.first, d);
    lemma_forney(p, c, s, w, xs, t);
    assert(code.error_value(s, c, inv) == d);
    lemma_root_power(code, i, k);
    lemma_pow_add(p, x, code.first, i as nat);
    lemma_mul_associates(p, d, xf, gf_pow(p, x, i as nat));
}

/// With the factors of the first points multiplied in, power sums over all points become
/// power sums over the others.
proof fn lemma_factors_taken(
    p: u16,
    sums: Seq<u8>,
    w: Seq<u8>,
    xs: Seq<u8>,
    erased: Seq<u8>,
) -> (u: Seq<u8>)
    requires
        is_primitive(p),
        is_power_sums(p, sums, w, xs),
        w.len() == xs.len(),
        0 < erased.len() <= xs.len(),
        erased.len() <= sums.len(),
        forall|t: int| 0 <= t < xs.len() ==> #[trigger] xs[t] != 0,
        forall|t: int| 0 <= t < erased.len() ==> #[trigger] erased[t] == gf_inv(p, xs[t]),
    ensures
        u.len() == xs.len() - erased.len(),
        forall|i: int|
            0 <= i < sums.len() - erased.len() ==> #[trigger] power_sum(
                p,
                u,
                xs.skip(erased.len() as int),
                i as nat,
            ) == conv(p, roots_poly(p, erased), sums, erased.len() + i),
{
    let m = erased.len();
    let rest = xs.skip(m as int);
    let n = (xs.len() - m) as nat;
    let gamma = roots_poly(p, erased);
    lemma_roots_poly(p, erased, 0);
    let weight = |t: int|
        gf_mul(p, gf_mul(p, w[t], gf_pow(p, xs[t], m)), poly_eval(p, gamma, gf_inv(p, xs[t])));
    let u = Seq::new(n, |t: int| weight(m + t));
    assert forall|i: int| 0 <= i < sums.len() - m implies #[trigger] power_sum(p, u, rest, i as nat)
        == conv(p, gamma, sums, m + i) by {
        let k = m + i;
        lemma_conv_power_sums(p, gamma, sums, w, xs, k);
        let f = |t: int| gf_mul(p, w[t], conv(p, gamma, geometric(p, xs[t], sums.len()), k));
        let g = power_terms(p, u, rest, i as nat);
        assert forall|t: int| 0 <= t < xs.len() implies #[trigger] f(t) == gf_mul(
            p,
            weight(t),
            gf_pow(p, xs[t], i as nat),
        ) by {
            let x = xs[t];
            lemma_conv_geometric(p, gamma, x, sums.len(), k);
            lemma_pow_add(p, x, m, i as nat);
            let (a, xm, xi, e) = (
                w[t],
                gf_pow(p, x, m),
                gf_pow(p, x, i as nat),
                poly_eval(p, gamma, gf_inv(p, x)),
            );
            lemma_mul_associates(p, xm, xi, e);
            lemma_mul_commutes(p, xi, e);
            lemma_mul_associates(p, a, xm, gf_mul(p, e, xi));
            lemma_mul_associates(p, gf_mul(p, a, xm), e, xi);
        }
        assert forall|t: int| 0 <= t < m implies #[trigger] f(t) == 0 by {
            lemma_roots_poly(p, erased, erased[t]);
            assert(erased.contains(erased[t]));
            lemma_mul_zero_one(p, gf_mul(p, w[t], gf_pow(p, xs[t], m)));
            lemma_mul_zero_one(p, gf_pow(p, xs[t], i as nat));
        }
        assert forall|t: int| 0 <= t < n implies #[trigger] g(t) == f(m + t) by {
            assert(f(m + t) == gf_mul(p, weight(m + t), gf_pow(p, xs[m + t], i as nat)));
        }
        lemma_sum_split(m, n, f, g);
        lemma_sum_zero_tail(0, m, f);
        lemma_xor(gf_sum(n, g), 0, 0);
    }
    u
}

/// Erased places and located errors together account for the syndromes.
proof fn lemma_all_accounted(
    code: Code,
    s: Seq<u8>,
    erased: Seq<u8>,
    c: Seq<u8>,
    xs: Seq<u8>,
) -> (w: Seq<u8>)
    requires
        code.valid(),
        s.len() == code.parity,
        distinct(xs),
        forall|t: int| 0 <= t < xs.len() ==> #[trigger] xs[t] != 0,
        0 < erased.len() <= xs.len() <= code.parity,
        forall|t: int|
            0 <= t < erased.len() ==> #[trigger] erased[t] == gf_inv(code.modulus, xs[t]),
        c.len() == xs.len() - erased.len() + 1,
        c[0] != 0,
        forall|t: int|
            erased.len() <= t < xs.len() ==> poly_eval(
                code.modulus,
                c,
                gf_inv(code.modulus, #[trigger] xs[t]),
            ) == 0,
        forall|k: int|
            xs.len() - erased.len() <= k < code.parity - erased.len() ==> #[trigger] conv(
                code.modulus,
                c,
                code.error_syndromes(s, erased),
                k,
            ) == 0,
    ensures
        w.len() == xs.len(),
        is_power_sums(code.modulus, s, w, xs),
{
    let p = code.modulus;
    let e = erased.len();
    let l = (xs.len() - e) as nat;
    let n = code.parity;
    let gamma = roots_poly(p, erased);
    let rest = xs.skip(e as int);
    let w = lemma_weights_exist(p, s, xs);
    let sums = Seq::new(n, |k: int| power_sum(p, w, xs, k as nat));
    let u = lemma_factors_taken(p, sums, w, xs, erased);
    let wanted = code.error_syndromes(s, erased);
    let made = Seq::new((n - e) as nat, |i: int| conv(p, gamma, sums, e + i));
    lemma_roots_poly(p, erased, 0);
    assert forall|i: int| 0 <= i < made.len() implies #[trigger] made[i] == power_sum(
        p,
        u,
        rest,
        i as nat,
    ) by {}
    // both start alike, and the locator generates both
    assert forall|i: int| 0 <= i < l && i < wanted.len() implies wanted[i] == #[trigger] made[i] by {
        let f = conv_terms(p, gamma, s, e + i);
        let g = conv_terms(p, gamma, sums, e + i);
        assert forall|j: int| 0 <= j < e + i + 1 implies #[trigger] f(j) == g(j) by {
            assert(power_sum(p, w, xs, (e + i - j) as nat) == s[e + i - j]);
        }
        lemma_sum_ext((e + i + 1) as nat, f, g);
    }
    assert forall|t: int| 0 <= t < rest.len() implies #[trigger] rest[t] != 0 && poly_eval(
        p,
        c,
        gf_inv(p, rest[t]),
    ) == 0 by {
        assert(xs[e + t] != 0);
    }
    assert forall|k: int| l <= k < wanted.len() implies #[trigger] conv(p, c, wanted, k) == conv(
        p,
        c,
        made,
        k,
    ) by {
        lemma_sums_generated(p, c, made, u, rest, k);
    }
    assert forall|i: int| 0 <= i < wanted.len() implies #[trigger] wanted[i] == made[i] by {
        lemma_same_recurrence(p, c, wanted, made, l, i);
    }
    if gamma[0] == 0 {
        lemma_eval_zero(p, gamma);
        let j = choose|j: int| 0 <= j < erased.len() && erased[j] == 0;
        assert(xs[j] != 0);
        lemma_inv(p, xs[j]);
    }
    assert forall|k: int| e <= k < s.len() implies #[trigger] conv(p, gamma, s, k) == conv(
        p,
        gamma,
        sums,
        k,
    ) by {
        assert(wanted[k - e] == made[k - e]);
    }
    assert forall|k: int| 0 <= k < e && k < s.len() implies s[k] == #[trigger] sums[k] by {
        assert(power_sum(p, w, xs, k as nat) == s[k]);
    }
    assert forall|k: int| 0 <= k < s.len() implies #[trigger] s[k] == power_sum(
        p,
        w,
        xs,
        k as nat,
    ) by {
        lemma_same_recurrence(p, gamma, s, sums, e, k);
    }
    w
}

/// The locator of the errors generates the syndromes that it was made from.
proof fn lemma_locator_generates(code: Code, s: Seq<u8>, erased: Seq<u8>)
    requires
        code.valid(),
        s.len() == code.parity,
        erased.len() <= code.parity,
    ensures
        ({
            let c = code.error_locator(s, erased);
            let t = code.error_syndromes(s, erased);
            &&& 1 <= c.len() <= t.len() + 1
            &&& c[0] == 1
            &&& t.len() == code.parity - erased.len()
            &&& forall|k: int|
                c.len() - 1 <= k < t.len() ==> #[trigger] conv(code.modulus, c, t, k) == 0
        }),
{
    let p = code.modulus;
    let t = code.error_syndromes(s, erased);
    let st = massey(p, t, code.parity, t.len());
    lemma_massey_shape(p, t, code.parity, t.len());
    lemma_massey_generates(p, t, code.parity, t.len());
    assert(massey_generates(p, t, st, t.len()));
    let c = code.error_locator(s, erased);
    assert forall|k: int| c.len() - 1 <= k < t.len() implies #[trigger] conv(p, c, t, k) == 0 by {
        assert(conv(p, st.locator, t, k) == 0);
        let f = conv_terms(p, c, t, k);
        let g = conv_terms(p, st.locator, t, k);
        assert forall|j: int| 0 <= j < k + 1 implies #[trigger] f(j) == g(j) by {
            assert(coef(c, j) == coef(st.locator, j)) by {
                if st.length < j <= code.parity {
                    assert(st.locator[j] == 0);
                }
            }
        }
        lemma_sum_ext((k + 1) as nat, f, g);
    }
}

/// No error is found at a place that is erased.
pub open spec fn found_apart(code: Code, block: Seq<u8>, erasures: Seq<u8>) -> bool {
    let erased = code.erasure_roots(block.len() as int, erasures);
    let c = code.error_locator(code.syndromes(block), erased);
    forall|j: int|
        0 <= j < erased.len() ==> poly_eval(code.modulus, c, #[trigger] erased[j]) != 0
}

/// The roots of erased places and found errors differ, and each lies at some place.
proof fn lemma_roots_apart(code: Code, block: Seq<u8>, erasures: Seq<u8>)
    requires
        code.valid(),
        code.valid_gap(),
        code.gap < 256,
        block.len() <= 255,
        erasures.len() <= code.parity,
        valid_erasures(block.len() as int, erasures),
        found_apart(code, block, erasures),
    ensures
        ({
            let s = code.syndromes(block);
            let erased = code.erasure_roots(block.len() as int, erasures);
            let c = code.error_locator(s, erased);
            let roots = erased + roots_below(code.modulus, c, 256);
            &&& distinct(roots)
            &&& forall|t: int|
                0 <= t < roots.len() ==> #[trigger] roots[t] != 0 && code.has_location(roots[t])
        }),
{
    let p = code.modulus;
    let s = code.syndromes(block);
    let erased = code.erasure_roots(block.len() as int, erasures);
    let c = code.error_locator(s, erased);
    let found = roots_below(p, c, 256);
    let roots = erased + found;
    lemma_locator_generates(code, s, erased);
    lemma_roots_below(p, c, 256);
    lemma_eval_zero(p, c);
    lemma_all_located(code, block, erasures);
    assert forall|t: int| 0 <= t < roots.len() implies #[trigger] roots[t] != 0
        && code.has_location(roots[t]) by {
        if t < erased.len() {
            let k = block.len() - 1 - erasures[t];
            lemma_point_nonzero(code, k);
            lemma_inv(p, code.point(k));
            assert(code.is_location(roots[t], k));
        } else {
            assert(roots[t] == found[t - erased.len()]);
            assert(poly_eval(p, c, found[t - erased.len()]) == 0);
        }
    }
    assert forall|i: int, j: int| 0 <= i < j < roots.len() implies #[trigger] roots[i]
        != #[trigger] roots[j] by {
        if j < erased.len() {
            let (a, b) = (block.len() - 1 - erasures[i], block.len() - 1 - erasures[j]);
            assert(erasures[i] != erasures[j]);
            lemma_point_nonzero(code, a);
            lemma_point_nonzero(code, b);
            if erased[i] == erased[j] {
                lemma_inv_injective(p, code.point(a), code.point(b));
                lemma_points_distinct(code, a, b);
            }
        } else {
            assert(roots[j] == found[j - erased.len()]);
            assert(poly_eval(p, c, found[j - erased.len()]) == 0);
            if i < erased.len() {
                assert(roots[i] == erased[i]);
            } else {
                assert(roots[i] == found[i - erased.len()]);
            }
        }
    }
}

/// A polynomial that a decode comes to vanishes at every root of the generator, and
/// differs from what was received in no more places than were counted.
pub proof fn lemma_decode_vanishes(code: Code, block: Seq<u8>, erasures: Seq<u8>, i: int)
    requires
        code.valid(),
        code.valid_gap(),
        code.gap < 256,
        code.parity <= block.len() <= 255,
        erasures.len() <= code.parity,
        valid_erasures(block.len() as int, erasures),
        found_apart(code, block, erasures),
        0 <= i < code.parity,
        code.decode(block, erasures) is Some,
    ensures
        ({
            let (count, poly) = code.decode(block, erasures)->0;
            &&& poly.len() == 255
            &&& poly_eval(code.modulus, poly, code.root(i)) == 0
            &&& wrong_places(
                received_poly(block).reverse(),
                poly.reverse(),
                |j: int| false,
            ).len() <= count
        }),
{
    let p = code.modulus;
    let s = code.syndromes(block);
    let received = received_poly(block);
    let x = code.root(i);
    lemma_received_eval(code, block, i);
    assert(s[i] == poly_eval(p, received, x));
    if forall|j: int| 0 <= j < code.parity ==> #[trigger] s[j] == 0 {
        lemma_same_places(received.reverse(), |j: int| false);
    } else {
        let erased = code.erasure_roots(block.len() as int, erasures);
        let e = erased.len();
        let c = code.error_locator(s, erased);
        let found = roots_below(p, c, 256);
        let roots = erased + found;
        lemma_locator_generates(code, s, erased);
        lemma_roots_below(p, c, 256);
        lemma_roots_apart(code, block, erasures);
        let xs = reciprocals(p, roots);
        lemma_reciprocals_distinct(p, roots);
        assert forall|t: int| 0 <= t < xs.len() implies #[trigger] xs[t] != 0 && gf_inv(p, xs[t])
            == roots[t] by {
            assert(roots[t] != 0);
            lemma_inv(p, roots[t]);
        }
        assert forall|t: int| e <= t < xs.len() implies poly_eval(p, c, gf_inv(p, #[trigger] xs[t]))
            == 0 by {
            assert(xs[t] != 0);
            assert(roots[t] == found[t - e]);
        }
        assert forall|t: int| 0 <= t < e implies #[trigger] erased[t] == gf_inv(p, xs[t]) by {
            assert(xs[t] != 0);
            assert(roots[t] == erased[t]);
        }
        let full = code.full_locator(s, erased);
        let w = if e > 0 {
            lemma_all_accounted(code, s, erased, c, xs)
        } else {
            let w = lemma_weights_exist(p, s, xs);
            lemma_sums_carry_on(p, c, s, w, xs);
            w
        };
        lemma_full_locator(code, s, erased, xs);
        let f = |t: int|
            gf_mul(
                p,
                code.error_value(s, full, roots[t]),
                gf_pow(p, x, code.location_of(roots[t]) as nat),
            );
        let g = power_terms(p, w, xs, i as nat);
        assert forall|t: int| 0 <= t < roots.len() implies 0 <= code.location_of(
            #[trigger] roots[t],
        ) < 255 && f(t) == g(t) by {
            assert(code.has_location(roots[t]));
            let k = choose|k: int| code.is_location(roots[t], k);
            assert(xs[t] != 0);
            lemma_part_of_syndrome(code, full, s, w, xs, t, i, k);
        }
        lemma_corrected_value(code, s, full, roots, received, x);
        lemma_sum_ext(roots.len(), f, g);
        assert(power_sum(p, w, xs, i as nat) == s[i]);
        lemma_xor(s[i], s[i], 0);
    }
}

/// What a decode hands out is the message of a codeword: a full block that vanishes at
/// every root of the generator and that differs from what arrived, with zeros for the
/// bytes that are left out in front, in no more places than the decode counts. Where
/// places are erased, this holds as long as no error is found at one of them.
pub proof fn lemma_message_of_codeword(
    code: Code,
    block: Seq<u8>,
    erasures: Seq<u8>,
    before: Seq<u8>,
    after: Seq<u8>,
    res: Result<usize, DecodeError>,
) -> (full: Seq<u8>)
    requires
        code.valid(),
        code.gap < 256,
        code.gap % 3 != 0,
        code.gap % 5 != 0,
        code.gap % 17 != 0,
        code.parity <= block.len() <= 255,
        erasures.len() <= code.parity,
        valid_erasures(block.len() as int, erasures),
        found_apart(code, block, erasures),
        after.len() == before.len() >= block.len() - code.parity,
        decode_result(code, block, erasures, before, after, res),
        res is Ok,
    ensures
        full.len() == 255,
        forall|i: int| 0 <= i < code.parity ==> #[trigger] code.syndrome(full, i) == 0,
        wrong_places(
            Seq::new((255 - block.len()) as nat, |i: int| 0u8) + block,
            full,
            |i: int| false,
        ).len() <= res->Ok_0,
        forall|i: int|
            0 <= i < block.len() - code.parity ==> #[trigger] after[i] == full[255 - block.len()
                + i],
{
    let (count, poly) = code.decode(block, erasures)->0;
    let full = poly.reverse();
    let padded = Seq::new((255 - block.len()) as nat, |i: int| 0u8) + block;
    let len = block.len() - code.parity;
    lemma_decode_vanishes(code, block, erasures, 0);
    lemma_all_located(code, block, erasures);
    assert(received_poly(block).reverse() =~= padded);
    assert(full.reverse() =~= poly);
    assert forall|i: int| 0 <= i < code.parity implies #[trigger] code.syndrome(full, i) == 0 by {
        lemma_decode_vanishes(code, block, erasures, i);
    }
    assert forall|i: int| 0 <= i < len implies #[trigger] after[i] == full[255 - block.len() + i] by {
        assert(after.take(len)[i] == message_of(poly, block.len() as int, code.parity as int)[i]);
    }
    full
}

} // verus!
