//! Finite sums in GF(2^8), where addition is exclusive-or.

use super::galois::{
    gf_mul, is_primitive, lemma_mul_distributes, lemma_mul_zero_one, lemma_xor, lemma_xor4,
};
use vstd::prelude::*;

verus! {

/// `f(0) + f(1) + ... + f(n - 1)`.
pub open spec fn gf_sum(n: nat, f: spec_fn(int) -> u8) -> u8
    decreases n,
{
    if n == 0 {
        0
    } else {
        gf_sum((n - 1) as nat, f) ^ f(n - 1)
    }
}

/// Sums of equal terms are equal.
pub proof fn lemma_sum_ext(n: nat, f: spec_fn(int) -> u8, g: spec_fn(int) -> u8)
    requires
        forall|i: int| 0 <= i < n ==> #[trigger] f(i) == g(i),
    ensures
        gf_sum(n, f) == gf_sum(n, g),
    decreases n,
{
    if n > 0 {
        lemma_sum_ext((n - 1) as nat, f, g);
        assert(f(n - 1) == g(n - 1));
    }
}

/// Terms add one by one.
pub proof fn lemma_sum_add(
    n: nat,
    f: spec_fn(int) -> u8,
    g: spec_fn(int) -> u8,
    h: spec_fn(int) -> u8,
)
    requires
        forall|i: int| 0 <= i < n ==> #[trigger] h(i) == f(i) ^ g(i),
    ensures
        gf_sum(n, h) == gf_sum(n, f) ^ gf_sum(n, g),
    decreases n,
{
    lemma_xor(0, 0, 0);
    if n > 0 {
        let m = (n - 1) as nat;
        lemma_sum_add(m, f, g, h);
        assert(h(n - 1) == f(n - 1) ^ g(n - 1));
        lemma_xor4(gf_sum(m, f), gf_sum(m, g), f(n - 1), g(n - 1));
    }
}

/// A common factor moves out of a sum.
pub proof fn lemma_sum_scale(
    p: u16,
    n: nat,
    c: u8,
    f: spec_fn(int) -> u8,
    g: spec_fn(int) -> u8,
)
    requires
        is_primitive(p),
        forall|i: int| 0 <= i < n ==> #[trigger] g(i) == gf_mul(p, c, f(i)),
    ensures
        gf_sum(n, g) == gf_mul(p, c, gf_sum(n, f)),
    decreases n,
{
    if n == 0 {
        lemma_mul_zero_one(p, c);
    } else {
        lemma_sum_scale(p, (n - 1) as nat, c, f, g);
        assert(g(n - 1) == gf_mul(p, c, f(n - 1)));
        lemma_mul_distributes(p, gf_sum((n - 1) as nat, f), f(n - 1), c);
    }
}

/// Zero terms from `m` on add nothing.
pub proof fn lemma_sum_zero_tail(m: nat, n: nat, f: spec_fn(int) -> u8)
    requires
        m <= n,
        forall|i: int| m <= i < n ==> #[trigger] f(i) == 0,
    ensures
        gf_sum(n, f) == gf_sum(m, f),
    decreases n,
{
    if n > m {
        lemma_sum_zero_tail(m, (n - 1) as nat, f);
        assert(f(n - 1) == 0);
        lemma_xor(gf_sum((n - 1) as nat, f), 0, 0);
    }
}

/// A sum with at most one nonzero term is that term.
pub proof fn lemma_sum_single(n: nat, k: int, f: spec_fn(int) -> u8)
    requires
        0 <= k < n,
        forall|i: int| 0 <= i < n && i != k ==> #[trigger] f(i) == 0,
    ensures
        gf_sum(n, f) == f(k),
{
    lemma_sum_zero_tail((k + 1) as nat, n, f);
    lemma_sum_zero_tail(0, k as nat, f);
    lemma_xor(f(k), 0, 0);
}

/// Two sums one after the other.
pub proof fn lemma_sum_split(m: nat, n: nat, f: spec_fn(int) -> u8, g: spec_fn(int) -> u8)
    requires
        forall|i: int| 0 <= i < n ==> #[trigger] g(i) == f(m + i),
    ensures
        gf_sum(m + n, f) == gf_sum(m, f) ^ gf_sum(n, g),
    decreases n,
{
    if n == 0 {
        lemma_xor(gf_sum(m, f), 0, 0);
    } else {
        lemma_sum_split(m, (n - 1) as nat, f, g);
        assert(g(n - 1) == f(m + (n - 1)));
        lemma_xor(gf_sum(m, f), gf_sum((n - 1) as nat, g), g(n - 1));
        assert((m + n - 1) as nat == m + (n - 1) as nat);
    }
}

/// A double sum may be taken in either order.
pub proof fn lemma_sum_swap(
    m: nat,
    n: nat,
    f: spec_fn(int, int) -> u8,
    rows: spec_fn(int) -> u8,
    columns: spec_fn(int) -> u8,
)
    requires
        forall|i: int| 0 <= i < m ==> #[trigger] rows(i) == gf_sum(n, |j: int| f(i, j)),
        forall|j: int| 0 <= j < n ==> #[trigger] columns(j) == gf_sum(m, |i: int| f(i, j)),
    ensures
        gf_sum(m, rows) == gf_sum(n, columns),
    decreases m,
{
    if m == 0 {
        lemma_sum_zero_tail(0, n, columns);
    } else {
        let k = (m - 1) as nat;
        let fewer = |j: int| gf_sum(k, |i: int| f(i, j));
        let last = |j: int| f(k as int, j);
        lemma_sum_swap(k, n, f, rows, fewer);
        assert forall|j: int| 0 <= j < n implies #[trigger] columns(j) == fewer(j) ^ last(j) by {
            let column = |i: int| f(i, j);
            assert(columns(j) == gf_sum(m, column));
            assert(fewer(j) == gf_sum(k, column));
        }
        lemma_sum_add(n, fewer, last, columns);
        assert(rows(k as int) == gf_sum(n, |j: int| f(k as int, j)));
        lemma_sum_ext(n, |j: int| f(k as int, j), last);
    }
}

} // verus!
