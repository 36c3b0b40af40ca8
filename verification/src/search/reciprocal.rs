//! The reciprocal of a code: every polynomial read backwards.

use crate::convolutional::trellis::nat_bit;
use vstd::arithmetic::power2::{lemma2_to64, lemma_pow2_strictly_increases, lemma_pow2_unfold, pow2};
use vstd::prelude::*;

verus! {

/// The low `n` bits of `p` in reverse order.
pub open spec fn reversed(p: nat, n: nat) -> nat
    decreases n,
{
    if n == 0 {
        0
    } else {
        2 * reversed(p, (n - 1) as nat) + if nat_bit(p, (n - 1) as nat) {
            1nat
        } else {
            0nat
        }
    }
}

/// Bit `j` of the reverse is bit `n - 1 - j`.
pub proof fn lemma_reversed_bit(p: nat, n: nat, j: nat)
    ensures
        nat_bit(reversed(p, n), j) == (j < n && nat_bit(p, (n - 1 - j) as nat)),
        reversed(p, n) < pow2(n),
    decreases n,
{
    lemma2_to64();
    if n == 0 {
        super::gf2::lemma_zero_bits(j);
    } else {
        let m = (n - 1) as nat;
        lemma_pow2_unfold(n);
        assert(reversed(p, n) / 2 == reversed(p, m));
        if j > 0 {
            lemma_reversed_bit(p, m, (j - 1) as nat);
        } else {
            lemma_reversed_bit(p, m, 0);
        }
    }
}

/// Reversing twice gives the number back.
pub proof fn lemma_reversed_twice(p: nat, n: nat)
    requires
        p < pow2(n),
    ensures
        reversed(reversed(p, n), n) == p,
{
    let r = reversed(p, n);
    assert forall|j: nat| #[trigger] nat_bit(reversed(r, n), j) == nat_bit(p, j) by {
        lemma_reversed_bit(r, n, j);
        if j < n {
            lemma_reversed_bit(p, n, (n - 1 - j) as nat);
        } else {
            super::walk::lemma_no_high_bits(p, n, j);
        }
    }
    super::gf2::lemma_same_bits(reversed(r, n), p);
}

/// Where `x` goes in an ascending sequence: behind all that are not larger.
pub open spec fn place_for(s: Seq<u16>, x: u16) -> int
    decreases s.len(),
{
    if s.len() == 0 {
        0
    } else if s.last() <= x {
        s.len() as int
    } else {
        place_for(s.drop_last(), x)
    }
}

/// The elements of a sequence in ascending order.
pub open spec fn ascending(s: Seq<u16>) -> Seq<u16>
    decreases s.len(),
{
    if s.len() == 0 {
        s
    } else {
        let t = ascending(s.drop_last());
        t.insert(place_for(t, s.last()), s.last())
    }
}

pub open spec fn is_sorted(s: Seq<u16>) -> bool {
    forall|i: int, j: int| 0 <= i <= j < s.len() ==> s[i] <= s[j]
}

/// The reversed polynomials in ascending order.
pub open spec fn reciprocal_of(polys: Seq<u16>, order: nat) -> Seq<u16> {
    ascending(Seq::new(polys.len(), |i: int| reversed(polys[i] as nat, order) as u16))
}

proof fn lemma_place_for(s: Seq<u16>, x: u16)
    requires
        is_sorted(s),
    ensures
        0 <= place_for(s, x) <= s.len(),
        forall|i: int| 0 <= i < place_for(s, x) ==> #[trigger] s[i] <= x,
        forall|i: int| place_for(s, x) <= i < s.len() ==> #[trigger] s[i] > x,
    decreases s.len(),
{
    if s.len() > 0 {
        if s.last() > x {
            let t = s.drop_last();
            lemma_place_for(t, x);
            assert forall|i: int| 0 <= i < place_for(t, x) implies #[trigger] s[i] <= x by {
                assert(t[i] == s[i]);
            }
            assert forall|i: int| place_for(t, x) <= i < s.len() implies #[trigger] s[i] > x by {
                if i < t.len() {
                    assert(t[i] == s[i]);
                }
            }
        } else {
            assert forall|i: int| 0 <= i < s.len() implies #[trigger] s[i] <= x by {
                assert(s[i] <= s[s.len() - 1]);
            }
        }
    }
}

/// Sorting keeps the elements and puts them in order.
pub proof fn lemma_ascending(s: Seq<u16>)
    ensures
        is_sorted(ascending(s)),
        ascending(s).len() == s.len(),
        ascending(s).to_multiset() == s.to_multiset(),
    decreases s.len(),
{
    if s.len() > 0 {
        let (r, x) = (s.drop_last(), s.last());
        lemma_ascending(r);
        let t = ascending(r);
        lemma_place_for(t, x);
        let at = place_for(t, x);
        let u = t.insert(at, x);
        assert forall|i: int, j: int| 0 <= i <= j < u.len() implies u[i] <= u[j] by {
            if i < at && j > at {
                assert(t[i] <= t[j - 1]);
            } else if i > at {
                assert(t[i - 1] <= t[j - 1]);
            } else if j < at {
                assert(t[i] <= t[j]);
            } else if i == at && j > at {
                assert(t[j - 1] > x);
            } else if j == at && i < at {
                assert(t[i] <= x);
            }
        }
        vstd::seq_lib::to_multiset_insert(t, at, x);
        vstd::seq_lib::to_multiset_build(r, x);
        assert(r.push(x) =~= s);
    }
}

/// The reverse of one polynomial.
fn reverse_poly(p: u16, order: u32) -> (r: u16)
    requires
        order <= 16,
    ensures
        r == reversed(p as nat, order as nat),
{
    let mut out: u32 = 0;
    let mut rest: u16 = p;
    let mut i: u32 = 0;
    proof {
        lemma2_to64();
    }
    while i < order
        invariant
            i <= order <= 16,
            out == reversed(p as nat, i as nat),
            out < pow2(i as nat),
            forall|m: nat| #[trigger] nat_bit(rest as nat, m) == nat_bit(p as nat, i as nat + m),
        decreases order - i,
    {
        let ghost before = rest as nat;
        proof {
            lemma2_to64();
            lemma_pow2_unfold((i + 1) as nat);
            lemma_pow2_strictly_increases(i as nat, 16);
            assert(nat_bit(rest as nat, 0) == nat_bit(p as nat, i as nat + 0));
        }
        out = 2 * out + (rest % 2) as u32;
        rest = rest / 2;
        proof {
            assert forall|m: nat| #[trigger] nat_bit(rest as nat, m) == nat_bit(
                p as nat,
                (i + 1) as nat + m,
            ) by {
                assert(nat_bit(before, m + 1) == nat_bit(p as nat, i as nat + (m + 1)));
                assert(i as nat + (m + 1) == (i + 1) as nat + m);
            }
        }
        i = i + 1;
    }
    proof {
        lemma2_to64();
        if order < 16 {
            lemma_pow2_strictly_increases(order as nat, 16);
        }
    }
    out as u16
}

/// Writes the reciprocal of a code to `out`. The reciprocal has the same
/// distances.
pub fn reciprocal(polys: &[u16], order: u32, out: &mut [u16])
    requires
        1 <= order <= 16,
        old(out)@.len() == polys@.len(),
    ensures
        final(out)@ == reciprocal_of(polys@, order as nat),
{
    let ghost source = Seq::new(
        polys@.len(),
        |i: int| reversed(polys@[i] as nat, order as nat) as u16,
    );
    let mut sorted: Vec<u16> = Vec::with_capacity(polys.len());
    let mut i: usize = 0;
    assert(source.take(0) =~= Seq::<u16>::empty());
    while i < polys.len()
        invariant
            i <= polys@.len(),
            1 <= order <= 16,
            source == Seq::new(
                polys@.len(),
                |i: int| reversed(polys@[i] as nat, order as nat) as u16,
            ),
            sorted@ == ascending(source.take(i as int)),
        decreases polys@.len() - i,
    {
        let r: u16 = reverse_poly(polys[i], order);
        let ghost t = sorted@;
        proof {
            lemma_ascending(source.take(i as int));
        }
        let mut at: usize = sorted.len();
        proof {
            assert(t.take(t.len() as int) =~= t);
        }
        while at > 0 && sorted[at - 1] > r
            invariant
                at <= sorted@.len(),
                sorted@ == t,
                place_for(t.take(at as int), r) == place_for(t, r),
            decreases at,
        {
            proof {
                let part = t.take(at as int);
                assert(part.drop_last() =~= t.take(at - 1));
                assert(part.last() == t[at - 1]);
            }
            at = at - 1;
        }
        proof {
            let part = t.take(at as int);
            if at > 0 {
                assert(part.last() == t[at - 1]);
            }
            assert(place_for(t, r) == at);
            let longer = source.take(i + 1);
            assert(longer.drop_last() =~= source.take(i as int));
            assert(longer.last() == r);
        }
        sorted.insert(at, r);
        i = i + 1;
    }
    proof {
        assert(source.take(polys@.len() as int) =~= source);
        lemma_ascending(source);
    }
    let mut k: usize = 0;
    while k < sorted.len()
        invariant
            k <= sorted@.len(),
            out@.len() == sorted@.len(),
            forall|j: int| 0 <= j < k ==> #[trigger] out@[j] == sorted@[j],
        decreases sorted@.len() - k,
    {
        out[k] = sorted[k];
        k = k + 1;
    }
    assert(out@ =~= sorted@);
}

} // verus!
