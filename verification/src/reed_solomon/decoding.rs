//! What decoding computes, and the proof that it corrects every pattern of
//! errors and erasures within the capacity of the code.

use super::ccsds::{
    lemma_maps_are_inverse, seq_to_conv, seq_to_dual, CCSDS_PRIMITIVE_POLYNOMIAL,
};
use super::code::{lemma_encoding_is_codeword, Code};
use super::forney::{error_evaluator, lemma_forney};
use super::galois::{
    alpha_pow, gf_div, gf_inv, gf_log, gf_mul, gf_pow, is_primitive, lemma_alpha_distinct,
    lemma_alpha_nonzero, lemma_alpha_period, lemma_inv, lemma_inv_injective, lemma_log,
    lemma_mul_alpha, lemma_mul_associates, lemma_mul_commutes, lemma_mul_nonzero,
    lemma_mul_zero_one, lemma_pow_add, lemma_pow_alpha, lemma_pow_inv, lemma_pow_nonzero, lemma_xor,
};
use super::massey::{
    geometric, is_power_sums, lemma_conv_geometric, lemma_conv_power_sums, lemma_massey_locates,
    lemma_massey_shape, lemma_reciprocals_distinct, massey, reciprocals,
};
use super::poly_model::{
    coef, conv, eval_terms, lemma_eval_add, lemma_eval_mul, lemma_eval_same, lemma_eval_zero,
    lemma_roots_poly, poly_derivative, poly_eval, poly_mul, roots_poly,
};
use super::primitive::lemma_primitive_polynomials;
use super::sums::{
    gf_sum, lemma_sum_add, lemma_sum_ext, lemma_sum_single, lemma_sum_split, lemma_sum_zero_tail,
};
use super::vandermonde::{distinct, lemma_root_bound, lemma_vandermonde, power_sum, power_terms};
use vstd::prelude::*;

verus! {

impl Code {
    /// A gap that shares no factor with 255, so that every position of a block
    /// has a point of its own.
    pub open spec fn valid_gap(self) -> bool {
        self.gap % 3 != 0 && self.gap % 5 != 0 && self.gap % 17 != 0
    }

    /// The point that stands for the coefficient of x^k.
    pub open spec fn point(self, k: int) -> u8 {
        alpha_pow(self.modulus, ((self.gap * k) % 255) as nat)
    }

    /// Position `k` has the reciprocal of `root` as its point.
    pub open spec fn is_location(self, root: u8, k: int) -> bool {
        0 <= k < 255 && self.point(k) == gf_inv(self.modulus, root)
    }

    /// Some position has the reciprocal of `root` as its point.
    pub open spec fn has_location(self, root: u8) -> bool {
        exists|k: int| self.is_location(root, k)
    }

    /// The order in which positions are tried: by their powers of alpha, but for
    /// position 0, which comes first.
    pub open spec fn rank(self, k: int) -> int {
        if k == 0 {
            0
        } else {
            alpha_pow(self.modulus, k as nat) as int
        }
    }

    /// The position whose point is the reciprocal of `root`: the first of them,
    /// where several positions share the point.
    pub open spec fn location_of(self, root: u8) -> int {
        choose|k: int|
            #![trigger self.is_location(root, k)]
            self.is_location(root, k) && forall|j: int| #[trigger]
                self.is_location(root, j) ==> self.rank(k) <= self.rank(j)
    }

    /// Every error that decoding finds in a block lies at some position.
    pub open spec fn all_located(self, block: Seq<u8>, erasures: Seq<u8>) -> bool {
        let s = self.syndromes(block);
        let erased = self.erasure_roots(block.len() as int, erasures);
        let found = roots_below(self.modulus, self.error_locator(s, erased), 256);
        forall|i: int| 0 <= i < found.len() ==> self.has_location(#[trigger] found[i])
    }

    /// Forney's formula for the error at the reciprocal of `root`.
    pub open spec fn error_value(self, s: Seq<u8>, locator: Seq<u8>, root: u8) -> u8 {
        gf_mul(
            self.modulus,
            element_power(self.modulus, root, self.first - 1),
            gf_div(
                self.modulus,
                poly_eval(self.modulus, error_evaluator(self.modulus, locator, s), root),
                poly_eval(self.modulus, poly_derivative(locator), root),
            ),
        )
    }

    /// The received polynomial with the error at the reciprocal of every root
    /// taken out.
    pub open spec fn corrected(
        self,
        s: Seq<u8>,
        locator: Seq<u8>,
        roots: Seq<u8>,
        received: Seq<u8>,
    ) -> Seq<u8>
        decreases roots.len(),
    {
        if roots.len() == 0 {
            received
        } else {
            let before = self.corrected(s, locator, roots.drop_last(), received);
            let k = self.location_of(roots.last());
            before.update(k, before[k] ^ self.error_value(s, locator, roots.last()))
        }
    }

    /// The locator's root for each erased byte of a block of `len` bytes.
    pub open spec fn erasure_roots(self, len: int, erasures: Seq<u8>) -> Seq<u8> {
        Seq::new(
            erasures.len(),
            |i: int| gf_inv(self.modulus, self.point(len - 1 - erasures[i])),
        )
    }

    /// The syndromes of the errors alone: with the erasures' factors multiplied
    /// in, the erasures no longer contribute.
    pub open spec fn error_syndromes(self, s: Seq<u8>, erased: Seq<u8>) -> Seq<u8> {
        if erased.len() == 0 {
            s
        } else {
            Seq::new(
                (self.parity - erased.len()) as nat,
                |i: int| conv(self.modulus, roots_poly(self.modulus, erased), s, erased.len() + i),
            )
        }
    }

    /// The locator of the errors alone.
    pub open spec fn error_locator(self, s: Seq<u8>, erased: Seq<u8>) -> Seq<u8> {
        let t = self.error_syndromes(s, erased);
        let st = massey(self.modulus, t, self.parity, t.len());
        st.locator.take(st.length as int + 1)
    }

    /// The locator of erasures and errors together.
    pub open spec fn full_locator(self, s: Seq<u8>, erased: Seq<u8>) -> Seq<u8> {
        if erased.len() == 0 {
            self.error_locator(s, erased)
        } else {
            poly_mul(
                self.modulus,
                roots_poly(self.modulus, erased),
                self.error_locator(s, erased),
            )
        }
    }

    /// What decoding a block with the given erased bytes comes to: `None` where
    /// the errors cannot be located, otherwise the number of corrections and
    /// the corrected polynomial of 255 coefficients.
    pub open spec fn decode(self, block: Seq<u8>, erasures: Seq<u8>) -> Option<(nat, Seq<u8>)> {
        let s = self.syndromes(block);
        let received = received_poly(block);
        if forall|i: int| 0 <= i < self.parity ==> #[trigger] s[i] == 0 {
            Some((0, received))
        } else {
            let erased = self.erasure_roots(block.len() as int, erasures);
            let c = self.error_locator(s, erased);
            let found = roots_below(self.modulus, c, 256);
            if found.len() + 1 != c.len() {
                None
            } else {
                let roots = erased + found;
                Some(
                    (
                        roots.len(),
                        self.corrected(s, self.full_locator(s, erased), roots, received),
                    ),
                )
            }
        }
    }
}

/// `x` to an integer power, through its logarithm.
pub open spec fn element_power(p: u16, x: u8, n: int) -> u8 {
    alpha_pow(p, ((gf_log(p, x) * n) % 255) as nat)
}

/// A block as a polynomial of 255 coefficients.
pub open spec fn received_poly(block: Seq<u8>) -> Seq<u8> {
    Seq::new(255, |k: int| coef(block.reverse(), k))
}

/// The message bytes of a corrected polynomial, for a block of `len` bytes.
pub open spec fn message_of(poly: Seq<u8>, len: int, parity: int) -> Seq<u8> {
    Seq::new((len - parity) as nat, |i: int| poly[len - 1 - i])
}

/// The roots of `c` among the bytes below `bound`, in increasing order.
pub open spec fn roots_below(p: u16, c: Seq<u8>, bound: nat) -> Seq<u8>
    decreases bound,
{
    if bound == 0 {
        seq![]
    } else {
        let fewer = roots_below(p, c, (bound - 1) as nat);
        if poly_eval(p, c, (bound - 1) as u8) == 0 {
            fewer.push((bound - 1) as u8)
        } else {
            fewer
        }
    }
}

/// Whether byte `i` is in error without being flagged as erased.
pub open spec fn is_error(sent: Seq<u8>, block: Seq<u8>, erasures: Seq<u8>, i: int) -> bool {
    sent[i] != block[i] && !erasures.contains(i as u8)
}

/// The positions below `n` that are in error without being flagged as erased.
pub open spec fn error_positions(
    sent: Seq<u8>,
    block: Seq<u8>,
    erasures: Seq<u8>,
    n: nat,
) -> Seq<u8>
    decreases n,
{
    if n == 0 {
        seq![]
    } else {
        let fewer = error_positions(sent, block, erasures, (n - 1) as nat);
        if is_error(sent, block, erasures, n - 1) {
            fewer.push((n - 1) as u8)
        } else {
            fewer
        }
    }
}

pub proof fn lemma_roots_below(p: u16, c: Seq<u8>, bound: nat)
    requires
        bound <= 256,
    ensures
        distinct(roots_below(p, c, bound)),
        roots_below(p, c, bound).len() <= bound,
        forall|i: int|
            0 <= i < roots_below(p, c, bound).len() ==> #[trigger] roots_below(p, c, bound)[i]
                < bound && poly_eval(p, c, roots_below(p, c, bound)[i]) == 0,
        forall|x: u8|
            x < bound && poly_eval(p, c, x) == 0 ==> #[trigger] roots_below(p, c, bound).contains(
                x,
            ),
    decreases bound,
{
    if bound > 0 {
        let m = (bound - 1) as nat;
        lemma_roots_below(p, c, m);
        let fewer = roots_below(p, c, m);
        let all = roots_below(p, c, bound);
        assert forall|x: u8| x < bound && poly_eval(p, c, x) == 0 implies #[trigger] all.contains(
            x,
        ) by {
            if x < m {
                assert(fewer.contains(x));
                let i = choose|i: int| 0 <= i < fewer.len() && fewer[i] == x;
                assert(all[i] == x);
            } else {
                assert(all[all.len() - 1] == x);
            }
        }
    }
}

/// A locator has no more roots than its length.
pub proof fn lemma_roots_below_bound(p: u16, c: Seq<u8>, bound: nat)
    requires
        is_primitive(p),
        bound <= 256,
        c.len() > 0,
        c[0] != 0,
    ensures
        roots_below(p, c, bound).len() < c.len(),
        forall|i: int|
            0 <= i < roots_below(p, c, bound).len() ==> #[trigger] roots_below(p, c, bound)[i] != 0,
{
    lemma_roots_below(p, c, bound);
    let roots = roots_below(p, c, bound);
    if roots.len() >= c.len() {
        lemma_root_bound(p, c, roots);
    }
    assert forall|i: int| 0 <= i < roots.len() implies #[trigger] roots[i] != 0 by {
        if roots[i] == 0 {
            lemma_eval_zero(p, c);
        }
    }
}

proof fn lemma_same_elements(a: Seq<u8>, b: Seq<u8>)
    requires
        distinct(a),
        distinct(b),
        forall|x: u8| #[trigger] a.contains(x) <==> b.contains(x),
    ensures
        a.len() == b.len(),
{
    a.unique_seq_to_set();
    b.unique_seq_to_set();
    assert(a.to_set() =~= b.to_set());
}

proof fn lemma_error_positions(sent: Seq<u8>, block: Seq<u8>, erasures: Seq<u8>, n: nat)
    requires
        n <= 255,
    ensures
        distinct(error_positions(sent, block, erasures, n)),
        forall|i: int|
            0 <= i < error_positions(sent, block, erasures, n).len() ==> #[trigger] error_positions(
                sent,
                block,
                erasures,
                n,
            )[i] < n && is_error(
                sent,
                block,
                erasures,
                error_positions(sent, block, erasures, n)[i] as int,
            ),
        forall|i: int|
            0 <= i < n && #[trigger] is_error(sent, block, erasures, i) ==> error_positions(
                sent,
                block,
                erasures,
                n,
            ).contains(i as u8),
    decreases n,
{
    if n > 0 {
        let m = (n - 1) as nat;
        lemma_error_positions(sent, block, erasures, m);
        let fewer = error_positions(sent, block, erasures, m);
        let all = error_positions(sent, block, erasures, n);
        assert forall|i: int| 0 <= i < n && #[trigger] is_error(
            sent,
            block,
            erasures,
            i,
        ) implies all.contains(i as u8) by {
            if i < m {
                assert(fewer.contains(i as u8));
                let j = choose|j: int| 0 <= j < fewer.len() && fewer[j] == i as u8;
                assert(all[j] == i as u8);
            } else {
                assert(all[all.len() - 1] == i as u8);
            }
        }
    }
}

/// Exponents of alpha may be reduced modulo 255 inside a product.
proof fn lemma_alpha_mod(p: u16, a: nat, b: nat)
    requires
        is_primitive(p),
    ensures
        alpha_pow(p, (a % 255) * b) == alpha_pow(p, a * b),
{
    lemma_alpha_period(p, (a % 255) * b);
    lemma_alpha_period(p, a * b);
    vstd::arithmetic::div_mod::lemma_mul_mod_noop_left(a as int, b as int, 255);
}

proof fn lemma_gap_cancels(g: nat, d: nat)
    requires
        g % 3 != 0,
        g % 5 != 0,
        g % 17 != 0,
        g < 256,
        d < 255,
        (g * d) % 255 == 0,
    ensures
        d == 0,
{
    let (a, b) = (g as u32, d as u32);
    assert(a * b < 0x1_0000) by (nonlinear_arith)
        requires
            a < 256,
            b < 255,
    ;
    assert(((a * b) as u32 % 255) == 0);
    assert(a % 3 != 0 && a % 5 != 0 && a % 17 != 0 && a < 256 && b < 255 && ((a * b) as u32 % 255)
        == 0 ==> b == 0) by (bit_vector);
}

/// Different positions have different points.
pub proof fn lemma_points_distinct(code: Code, i: int, j: int)
    requires
        code.valid(),
        code.valid_gap(),
        code.gap < 256,
        0 <= i < 255,
        0 <= j < 255,
        code.point(i) == code.point(j),
    ensures
        i == j,
{
    let g = code.gap;
    let (lo, hi) = if i <= j {
        (i, j)
    } else {
        (j, i)
    };
    lemma_alpha_distinct(
        code.modulus,
        ((g * i) % 255) as nat,
        ((g * j) % 255) as nat,
    );
    assert((g * i) % 255 == (g * j) % 255);
    assert(g * hi - g * lo == g * (hi - lo)) by (nonlinear_arith);
    let (x, y, d) = (g * hi, g * lo, g * (hi - lo));
    assert(x % 255 == y % 255 && x - y == d ==> d % 255 == 0);
    lemma_gap_cancels(g, (hi - lo) as nat);
}

/// Every nonzero element is the point of some position.
pub proof fn lemma_points_onto(code: Code, e: u8)
    requires
        code.valid(),
        code.valid_gap(),
        code.gap < 256,
        e != 0,
    ensures
        exists|k: int| 0 <= k < 255 && #[trigger] code.point(k) == e,
{
    let positions: Set<int> = vstd::set_lib::set_int_range(0, 255);
    let bytes: Set<int> = vstd::set_lib::set_int_range(1, 256);
    vstd::set_lib::lemma_int_range(0, 255);
    vstd::set_lib::lemma_int_range(1, 256);
    let f = |k: int| code.point(k) as int;
    let image: Set<int> = positions.map(f);
    assert forall|a: int, b: int|
        positions.contains(a) && positions.contains(b) && f(a) == f(b) implies a == b by {
        lemma_points_distinct(code, a, b);
    }
    assert(vstd::relations::injective_on(f, positions));
    vstd::set_lib::lemma_map_size(positions, image, f);
    assert forall|v: int| image.contains(v) implies bytes.contains(v) by {
        let k = choose|k: int| positions.contains(k) && f(k) == v;
        lemma_point_nonzero(code, k);
    }
    vstd::set_lib::lemma_subset_equality(image, bytes);
    assert(bytes.contains(e as int));
    let k = choose|k: int| positions.contains(k) && f(k) == e as int;
    assert(code.point(k) == e);
}

pub proof fn lemma_point_nonzero(code: Code, k: int)
    requires
        code.valid(),
    ensures
        code.point(k) != 0,
{
    lemma_alpha_nonzero(code.modulus, ((code.gap * k) % 255) as nat);
}

/// Positions are tried one after the other.
pub proof fn lemma_ranks_distinct(code: Code, i: int, j: int)
    requires
        code.valid(),
        0 <= i < 255,
        0 <= j < 255,
        code.rank(i) == code.rank(j),
    ensures
        i == j,
{
    lemma_alpha_nonzero(code.modulus, i as nat);
    lemma_alpha_nonzero(code.modulus, j as nat);
    lemma_alpha_distinct(code.modulus, i as nat, j as nat);
}

/// A position that no other one with the same point precedes is the location.
pub proof fn lemma_first_location(code: Code, root: u8, k: int)
    requires
        code.valid(),
        code.is_location(root, k),
        forall|j: int| #[trigger] code.is_location(root, j) ==> code.rank(k) <= code.rank(j),
    ensures
        code.location_of(root) == k,
{
    let l = code.location_of(root);
    assert(code.is_location(root, l));
    lemma_ranks_distinct(code, k, l);
}

/// With a valid gap every error lies at some position.
pub proof fn lemma_all_located(code: Code, block: Seq<u8>, erasures: Seq<u8>)
    requires
        code.valid(),
        code.valid_gap(),
        code.gap < 256,
        erasures.len() <= code.parity,
    ensures
        code.all_located(block, erasures),
{
    let s = code.syndromes(block);
    let erased = code.erasure_roots(block.len() as int, erasures);
    let c = code.error_locator(s, erased);
    let t = code.error_syndromes(s, erased);
    lemma_massey_shape(code.modulus, t, code.parity, t.len());
    let found = roots_below(code.modulus, c, 256);
    lemma_roots_below_bound(code.modulus, c, 256);
    assert forall|i: int| 0 <= i < found.len() implies code.has_location(#[trigger] found[i]) by {
        let root = found[i];
        lemma_inv(code.modulus, root);
        lemma_points_onto(code, gf_inv(code.modulus, root));
        let k = choose|k: int|
            0 <= k < 255 && #[trigger] code.point(k) == gf_inv(code.modulus, root);
        assert(code.is_location(root, k));
    }
}

/// The reciprocal of a position's point leads back to the position.
pub proof fn lemma_location_of(code: Code, k: int)
    requires
        code.valid(),
        code.valid_gap(),
        code.gap < 256,
        0 <= k < 255,
    ensures
        code.location_of(gf_inv(code.modulus, code.point(k))) == k,
{
    lemma_point_nonzero(code, k);
    let root = gf_inv(code.modulus, code.point(k));
    lemma_inv(code.modulus, code.point(k));
    assert(code.is_location(root, k));
    assert forall|j: int| #[trigger] code.is_location(root, j) implies code.rank(k) <= code.rank(
        j,
    ) by {
        lemma_points_distinct(code, j, k);
    }
    lemma_first_location(code, root, k);
}

/// The generator's `i`th root to the `k`th power, in terms of the point of `k`.
pub proof fn lemma_root_power(code: Code, i: int, k: int)
    requires
        code.valid(),
        i >= 0,
        k >= 0,
    ensures
        gf_pow(code.modulus, code.root(i), k as nat) == gf_pow(
            code.modulus,
            code.point(k),
            (code.first + i) as nat,
        ),
{
    let p = code.modulus;
    let (a, b, j, n) = (
        (code.gap * (i + code.first)) as nat,
        (code.gap * k) as nat,
        k as nat,
        (code.first + i) as nat,
    );
    assert(a >= 0 && b >= 0) by (nonlinear_arith)
        requires
            a == code.gap * (i + code.first),
            b == code.gap * k,
            i >= 0,
            k >= 0,
    ;
    lemma_pow_alpha(p, a % 255, j);
    lemma_pow_alpha(p, b % 255, n);
    lemma_alpha_mod(p, a, j);
    lemma_alpha_mod(p, b, n);
    assert(a * j == b * n) by (nonlinear_arith)
        requires
            a == code.gap * (i + code.first),
            b == code.gap * k,
            j == k,
            n == code.first + i,
    ;
}

/// A sum whose terms are zero outside a list of places.
proof fn lemma_sum_support(n: nat, f: spec_fn(int) -> u8, places: Seq<int>)
    requires
        forall|i: int, j: int|
            0 <= i < j < places.len() ==> #[trigger] places[i] != #[trigger] places[j],
        forall|i: int| 0 <= i < places.len() ==> 0 <= #[trigger] places[i] < n,
        forall|k: int| 0 <= k < n && !places.contains(k) ==> #[trigger] f(k) == 0,
    ensures
        gf_sum(n, f) == gf_sum(places.len(), |t: int| f(places[t])),
    decreases places.len(),
{
    let h = |t: int| f(places[t]);
    if places.len() == 0 {
        lemma_sum_zero_tail(0, n, f);
    } else {
        let fewer = places.drop_last();
        let last = places.last();
        let g = |k: int|
            if k == last {
                0u8
            } else {
                f(k)
            };
        let single = |k: int|
            if k == last {
                f(k)
            } else {
                0u8
            };
        assert forall|k: int| 0 <= k < n implies #[trigger] f(k) == g(k) ^ single(k) by {
            lemma_xor(f(k), 0, 0);
        }
        lemma_sum_add(n, g, single, f);
        assert(last == places[places.len() - 1]);
        lemma_sum_single(n, last, single);
        assert forall|k: int| 0 <= k < n && !fewer.contains(k) implies #[trigger] g(k) == 0 by {
            if k != last && places.contains(k) {
                let i = choose|i: int| 0 <= i < places.len() && places[i] == k;
                assert(fewer[i] == k);
            }
        }
        lemma_sum_support(n, g, fewer);
        let h2 = |t: int| g(fewer[t]);
        assert forall|t: int| 0 <= t < fewer.len() implies #[trigger] h2(t) == h(t) by {
            assert(places[t] != places[places.len() - 1]);
        }
        lemma_sum_ext(fewer.len(), h2, h);
        assert(gf_sum(places.len(), h) == gf_sum(fewer.len(), h) ^ h(places.len() - 1));
    }
}

/// The exponents of the erased bytes, then those of the bytes in error.
spec fn all_places(sent: Seq<u8>, block: Seq<u8>, erasures: Seq<u8>) -> Seq<int> {
    let positions = erasures + error_positions(sent, block, erasures, block.len());
    Seq::new(positions.len(), |t: int| block.len() - 1 - positions[t])
}

/// The coefficient by which the block differs from what was sent.
spec fn difference(sent: Seq<u8>, block: Seq<u8>, k: int) -> u8 {
    received_poly(sent)[k] ^ received_poly(block)[k]
}

/// The points of the places, and the weights of their errors.
spec fn place_points(code: Code, places: Seq<int>) -> Seq<u8> {
    Seq::new(places.len(), |t: int| code.point(places[t]))
}

spec fn place_weights(code: Code, sent: Seq<u8>, block: Seq<u8>, places: Seq<int>) -> Seq<u8> {
    Seq::new(
        places.len(),
        |t: int|
            gf_mul(
                code.modulus,
                difference(sent, block, places[t]),
                gf_pow(code.modulus, code.point(places[t]), code.first),
            ),
    )
}

/// The erased positions are distinct positions of the block.
pub open spec fn valid_erasures(len: int, erasures: Seq<u8>) -> bool {
    &&& distinct(erasures)
    &&& forall|i: int| 0 <= i < erasures.len() ==> #[trigger] erasures[i] < len
}

proof fn lemma_all_places(sent: Seq<u8>, block: Seq<u8>, erasures: Seq<u8>)
    requires
        sent.len() == block.len(),
        block.len() <= 255,
        valid_erasures(block.len() as int, erasures),
    ensures
        ({
            let places = all_places(sent, block, erasures);
            let count = error_positions(sent, block, erasures, block.len()).len();
            &&& places.len() == erasures.len() + count
            &&& forall|i: int, j: int|
                0 <= i < j < places.len() ==> #[trigger] places[i] != #[trigger] places[j]
            &&& forall|i: int|
                0 <= i < places.len() ==> 0 <= #[trigger] places[i] < block.len()
            &&& forall|k: int|
                0 <= k < 255 && !places.contains(k) ==> #[trigger] difference(sent, block, k) == 0
            &&& forall|i: int|
                erasures.len() <= i < places.len() ==> difference(
                    sent,
                    block,
                    #[trigger] places[i],
                ) != 0
        }),
{
    let n = block.len();
    lemma_error_positions(sent, block, erasures, n);
    let errors = error_positions(sent, block, erasures, n);
    let positions = erasures + errors;
    let places = all_places(sent, block, erasures);
    assert forall|i: int, j: int|
        0 <= i < j < places.len() implies #[trigger] places[i] != #[trigger] places[j] by {
        if i < erasures.len() && j >= erasures.len() {
            let e = errors[j - erasures.len()];
            assert(is_error(sent, block, erasures, e as int));
            assert(erasures[i] != e) by {
                if erasures[i] == e {
                    assert(erasures.contains(e));
                }
            }
        } else if i >= erasures.len() {
            assert(errors[i - erasures.len()] != errors[j - erasures.len()]);
        } else {
            assert(erasures[i] != erasures[j]);
        }
    }
    assert forall|i: int| 0 <= i < places.len() implies 0 <= #[trigger] places[i] < n by {
        if i >= erasures.len() {
            assert(errors[i - erasures.len()] < n);
        } else {
            assert(erasures[i] < n);
        }
    }
    assert forall|k: int| 0 <= k < 255 && !places.contains(k) implies #[trigger] difference(
        sent,
        block,
        k,
    ) == 0 by {
        lemma_xor(received_poly(sent)[k], received_poly(block)[k], 0);
        lemma_xor(0, 0, 0);
        if k < n {
            let i = n - 1 - k;
            if sent[i] != block[i] {
                if erasures.contains(i as u8) {
                    let t = choose|t: int| 0 <= t < erasures.len() && erasures[t] == i as u8;
                    assert(places[t] == k);
                } else {
                    assert(is_error(sent, block, erasures, i));
                    assert(errors.contains(i as u8));
                    let t = choose|t: int| 0 <= t < errors.len() && errors[t] == i as u8;
                    assert(positions[erasures.len() + t] == errors[t]);
                    assert(places[erasures.len() + t] == k);
                }
            }
        }
    }
    assert forall|i: int| erasures.len() <= i < places.len() implies difference(
        sent,
        block,
        #[trigger] places[i],
    ) != 0 by {
        let e = errors[i - erasures.len()];
        assert(is_error(sent, block, erasures, e as int));
        let k = places[i];
        assert(e < n);
        assert(n - 1 - k == e);
        lemma_xor(received_poly(sent)[k], received_poly(block)[k], 0);
    }
}

/// The value of a block does not change when it is padded to full length.
pub proof fn lemma_received_eval(code: Code, block: Seq<u8>, i: int)
    requires
        block.len() <= 255,
    ensures
        code.syndrome(block, i) == poly_eval(code.modulus, received_poly(block), code.root(i)),
{
    lemma_eval_same(code.modulus, block.reverse(), received_poly(block), code.root(i));
}

/// The syndromes are power sums of the differences from what was sent.
proof fn lemma_syndromes(code: Code, sent: Seq<u8>, block: Seq<u8>, erasures: Seq<u8>)
    requires
        code.valid(),
        code.is_codeword(sent),
        sent.len() == block.len(),
        valid_erasures(block.len() as int, erasures),
    ensures
        is_power_sums(
            code.modulus,
            code.syndromes(block),
            place_weights(code, sent, block, all_places(sent, block, erasures)),
            place_points(code, all_places(sent, block, erasures)),
        ),
{
    let p = code.modulus;
    let places = all_places(sent, block, erasures);
    let (w, xs) = (place_weights(code, sent, block, places), place_points(code, places));
    let s = code.syndromes(block);
    lemma_all_places(sent, block, erasures);
    let (rs, rb) = (received_poly(sent), received_poly(block));
    let diff = Seq::new(255, |k: int| difference(sent, block, k));
    assert forall|i: int| 0 <= i < s.len() implies #[trigger] s[i] == power_sum(
        p,
        w,
        xs,
        i as nat,
    ) by {
        let x = code.root(i);
        lemma_received_eval(code, sent, i);
        lemma_received_eval(code, block, i);
        assert(code.syndrome(sent, i) == 0);
        assert forall|k: int| #[trigger] coef(diff, k) == coef(rs, k) ^ coef(rb, k) by {
            lemma_xor(0, 0, 0);
        }
        lemma_eval_add(p, rs, rb, diff, x);
        lemma_xor(poly_eval(p, rb, x), 0, 0);
        let f = eval_terms(p, diff, x);
        assert forall|k: int| 0 <= k < 255 && !places.contains(k) implies #[trigger] f(k) == 0 by {
            assert(difference(sent, block, k) == 0);
            lemma_mul_zero_one(p, gf_pow(p, x, k as nat));
        }
        lemma_sum_support(255, f, places);
        let g = |t: int| f(places[t]);
        let h = power_terms(p, w, xs, i as nat);
        assert forall|t: int| 0 <= t < places.len() implies #[trigger] g(t) == h(t) by {
            let k = places[t];
            let y = code.point(k);
            lemma_root_power(code, i, k);
            lemma_pow_add(p, y, code.first, i as nat);
            lemma_mul_associates(
                p,
                difference(sent, block, k),
                gf_pow(p, y, code.first),
                gf_pow(p, y, i as nat),
            );
        }
        lemma_sum_ext(places.len(), g, h);
    }
}

/// Forney's formula gives the difference back.
pub proof fn lemma_value_is_difference(p: u16, a: nat, first: nat, d: u8)
    requires
        is_primitive(p),
    ensures
        ({
            let x = alpha_pow(p, a);
            gf_mul(
                p,
                element_power(p, gf_inv(p, x), first - 1),
                gf_mul(p, gf_mul(p, d, gf_pow(p, x, first)), gf_inv(p, x)),
            ) == d
        }),
{
    let x = alpha_pow(p, a);
    let inv = gf_inv(p, x);
    lemma_alpha_nonzero(p, a);
    lemma_inv(p, x);
    lemma_log(p, inv);
    let r = gf_log(p, inv);
    let m = first - 1;
    lemma_mul_alpha(p, r, a);
    lemma_alpha_distinct(p, r + a, 0);
    let e = ((r * m) % 255) as nat;
    lemma_mul_zero_one(p, d);
    if first == 0 {
        lemma_mul_alpha(p, e, r);
        assert(r * m == -r) by (nonlinear_arith)
            requires
                m == -1,
        ;
        assert((e + r) % 255 == 0);
        lemma_alpha_period(p, e + r);
        lemma_mul_commutes(p, d, inv);
        lemma_mul_associates(p, alpha_pow(p, e), inv, d);
    } else {
        let n = m as nat;
        lemma_pow_inv(p, x, first, 1);
        assert(gf_pow(p, inv, 1) == gf_mul(p, inv, gf_pow(p, inv, 0)));
        lemma_mul_zero_one(p, inv);
        lemma_mul_associates(p, d, gf_pow(p, x, first), inv);
        lemma_pow_alpha(p, a, n);
        lemma_mul_alpha(p, e, a * n);
        assert((e + a * n) % 255 == 0) by {
            assert(r * m + a * n == (r + a) * n) by (nonlinear_arith)
                requires
                    m == n,
            ;
            let q = (r + a) / 255;
            assert((r + a) == 255 * q);
            assert((r + a) * n == 255 * (q * n)) by (nonlinear_arith)
                requires
                    (r + a) == 255 * q,
            ;
            let (y, z) = (r * m, a * n);
            assert(y + z == 255 * (q * n) ==> (y % 255 + z) % 255 == 0);
        }
        lemma_alpha_period(p, e + a * n);
        let xn = gf_pow(p, x, n);
        lemma_mul_commutes(p, d, xn);
        lemma_mul_associates(p, alpha_pow(p, e), xn, d);
    }
}

/// Taking out one error after another, each at a place of its own.
proof fn lemma_corrected(
    code: Code,
    s: Seq<u8>,
    locator: Seq<u8>,
    roots: Seq<u8>,
    received: Seq<u8>,
    values: spec_fn(int) -> u8,
)
    requires
        received.len() == 255,
        forall|i: int|
            0 <= i < roots.len() ==> 0 <= #[trigger] code.location_of(roots[i]) < 255
                && code.error_value(s, locator, roots[i]) == values(code.location_of(roots[i])),
        forall|i: int, j: int|
            0 <= i < j < roots.len() ==> #[trigger] code.location_of(roots[i])
                != #[trigger] code.location_of(roots[j]),
    ensures
        code.corrected(s, locator, roots, received).len() == 255,
        forall|i: int|
            0 <= i < roots.len() ==> code.corrected(s, locator, roots, received)[#[trigger] code.location_of(
                roots[i],
            )] == received[code.location_of(roots[i])] ^ values(code.location_of(roots[i])),
        forall|k: int|
            0 <= k < 255 && (forall|i: int|
                0 <= i < roots.len() ==> #[trigger] code.location_of(roots[i]) != k)
                ==> #[trigger] code.corrected(s, locator, roots, received)[k] == received[k],
    decreases roots.len(),
{
    if roots.len() > 0 {
        let fewer = roots.drop_last();
        let m = (roots.len() - 1) as int;
        assert forall|i: int| 0 <= i < fewer.len() implies fewer[i] == roots[i] by {}
        assert forall|i: int| 0 <= i < fewer.len() implies 0 <= #[trigger] code.location_of(
            fewer[i],
        ) < 255 && code.error_value(s, locator, fewer[i]) == values(
            code.location_of(fewer[i]),
        ) by {
            assert(code.location_of(roots[i]) == code.location_of(fewer[i]));
        }
        assert forall|i: int, j: int| 0 <= i < j < fewer.len() implies #[trigger] code.location_of(
            fewer[i],
        ) != #[trigger] code.location_of(fewer[j]) by {
            assert(code.location_of(roots[i]) != code.location_of(roots[j]));
        }
        lemma_corrected(code, s, locator, fewer, received, values);
        let before = code.corrected(s, locator, fewer, received);
        let after = code.corrected(s, locator, roots, received);
        let last = code.location_of(roots[m]);
        assert(before[last] == received[last]) by {
            assert forall|i: int| 0 <= i < fewer.len() implies #[trigger] code.location_of(
                fewer[i],
            ) != last by {
                assert(code.location_of(roots[i]) != code.location_of(roots[m]));
            }
        }
        assert forall|i: int| 0 <= i < roots.len() implies after[#[trigger] code.location_of(
            roots[i],
        )] == received[code.location_of(roots[i])] ^ values(code.location_of(roots[i])) by {
            if i < m {
                assert(code.location_of(fewer[i]) == code.location_of(roots[i]));
                assert(code.location_of(roots[i]) != code.location_of(roots[m]));
            }
        }
        assert forall|k: int|
            0 <= k < 255 && (forall|i: int|
                0 <= i < roots.len() ==> #[trigger] code.location_of(roots[i])
                    != k) implies #[trigger] after[k] == received[k] by {
            assert(code.location_of(roots[m]) != k);
            assert forall|i: int| 0 <= i < fewer.len() implies #[trigger] code.location_of(
                fewer[i],
            ) != k by {
                assert(code.location_of(roots[i]) != k);
            }
            assert(before[k] == received[k]);
        }
    }
}

/// With the erasures' factors multiplied in, the syndromes are power sums of
/// the errors alone.
proof fn lemma_error_syndromes(
    code: Code,
    s: Seq<u8>,
    w: Seq<u8>,
    xs: Seq<u8>,
    erased: Seq<u8>,
) -> (u: Seq<u8>)
    requires
        code.valid(),
        s.len() == code.parity,
        is_power_sums(code.modulus, s, w, xs),
        w.len() == xs.len(),
        distinct(xs),
        forall|t: int| 0 <= t < xs.len() ==> #[trigger] xs[t] != 0,
        erased.len() <= xs.len(),
        erased.len() <= code.parity,
        forall|t: int|
            0 <= t < erased.len() ==> #[trigger] erased[t] == gf_inv(code.modulus, xs[t]),
        forall|t: int| erased.len() <= t < xs.len() ==> #[trigger] w[t] != 0,
    ensures
        u.len() == xs.len() - erased.len(),
        is_power_sums(
            code.modulus,
            code.error_syndromes(s, erased),
            u,
            xs.skip(erased.len() as int),
        ),
        forall|t: int| 0 <= t < u.len() ==> #[trigger] u[t] != 0,
{
    let p = code.modulus;
    let m = erased.len();
    let rest = xs.skip(m as int);
    let n = (xs.len() - m) as nat;
    if m == 0 {
        assert(rest =~= xs);
        return w;
    }
    let gamma = roots_poly(p, erased);
    lemma_roots_poly(p, erased, 0);
    let weight = |t: int|
        gf_mul(p, gf_mul(p, w[t], gf_pow(p, xs[t], m)), poly_eval(p, gamma, gf_inv(p, xs[t])));
    let u = Seq::new(n, |t: int| weight(m + t));
    let ts = code.error_syndromes(s, erased);
    assert forall|i: int| 0 <= i < ts.len() implies #[trigger] ts[i] == power_sum(
        p,
        u,
        rest,
        i as nat,
    ) by {
        let k = m + i;
        lemma_conv_power_sums(p, gamma, s, w, xs, k);
        let f = |t: int| gf_mul(p, w[t], conv(p, gamma, geometric(p, xs[t], s.len()), k));
        let g = power_terms(p, u, rest, i as nat);
        assert forall|t: int| 0 <= t < xs.len() implies #[trigger] f(t) == gf_mul(
            p,
            weight(t),
            gf_pow(p, xs[t], i as nat),
        ) by {
            let x = xs[t];
            lemma_conv_geometric(p, gamma, x, s.len(), k);
            lemma_pow_add(p, x, m, i as nat);
            let (a, xm, xi, e) = (
                w[t],
                gf_pow(p, x, m),
                gf_pow(p, x, i as nat),
                poly_eval(p, gamma, gf_inv(p, x)),
            );
            lemma_mul_associates(p, xm, xi, e);
            lemma_mul_commutes(p, xi, e);
            lemma_mul_associates(p, a, xm, gf_mul(p, e, xi));
            lemma_mul_associates(p, gf_mul(p, a, xm), e, xi);
        }
        assert forall|t: int| 0 <= t < m implies #[trigger] f(t) == 0 by {
            lemma_roots_poly(p, erased, erased[t]);
            assert(erased.contains(erased[t]));
            lemma_mul_zero_one(p, gf_mul(p, w[t], gf_pow(p, xs[t], m)));
            lemma_mul_zero_one(p, gf_pow(p, xs[t], i as nat));
        }
        assert forall|t: int| 0 <= t < n implies #[trigger] g(t) == f(m + t) by {
            assert(f(m + t) == gf_mul(p, weight(m + t), gf_pow(p, xs[m + t], i as nat)));
        }
        lemma_sum_split(m, n, f, g);
        lemma_sum_zero_tail(0, m, f);
        lemma_xor(gf_sum(n, g), 0, 0);
    }
    assert forall|t: int| 0 <= t < u.len() implies #[trigger] u[t] != 0 by {
        let x = xs[m + t];
        let at = gf_inv(p, x);
        assert(w[m + t] != 0 && x != 0);
        lemma_roots_poly(p, erased, at);
        if erased.contains(at) {
            let j = choose|j: int| 0 <= j < m && erased[j] == at;
            assert(xs[j] != 0);
            lemma_inv_injective(p, xs[j], x);
            assert(xs[j] != xs[m + t]);
        }
        lemma_pow_nonzero(p, x, m);
        lemma_mul_nonzero(p, w[m + t], gf_pow(p, x, m));
        lemma_mul_nonzero(p, gf_mul(p, w[m + t], gf_pow(p, x, m)), poly_eval(p, gamma, at));
    }
    u
}

/// The locator of erasures and errors together vanishes at the reciprocal of
/// every point, and its constant term is not zero.
pub proof fn lemma_full_locator(code: Code, s: Seq<u8>, erased: Seq<u8>, xs: Seq<u8>)
    requires
        code.valid(),
        s.len() == code.parity,
        erased.len() <= code.parity,
        erased.len() <= xs.len(),
        forall|t: int| 0 <= t < xs.len() ==> #[trigger] xs[t] != 0,
        forall|t: int|
            0 <= t < erased.len() ==> #[trigger] erased[t] == gf_inv(code.modulus, xs[t]),
        code.error_locator(s, erased).len() == xs.len() - erased.len() + 1,
        code.error_locator(s, erased)[0] == 1,
        forall|t: int|
            erased.len() <= t < xs.len() ==> poly_eval(
                code.modulus,
                code.error_locator(s, erased),
                gf_inv(code.modulus, #[trigger] xs[t]),
            ) == 0,
    ensures
        code.full_locator(s, erased).len() == xs.len() + 1,
        code.full_locator(s, erased)[0] != 0,
        forall|t: int|
            0 <= t < xs.len() ==> poly_eval(
                code.modulus,
                code.full_locator(s, erased),
                gf_inv(code.modulus, #[trigger] xs[t]),
            ) == 0,
{
    let p = code.modulus;
    if erased.len() > 0 {
        let gamma = roots_poly(p, erased);
        let c = code.error_locator(s, erased);
        let full = code.full_locator(s, erased);
        lemma_roots_poly(p, erased, 0);
        assert forall|t: int| 0 <= t < xs.len() implies poly_eval(
            p,
            full,
            gf_inv(p, #[trigger] xs[t]),
        ) == 0 by {
            let at = gf_inv(p, xs[t]);
            lemma_eval_mul(p, gamma, c, at);
            lemma_mul_zero_one(p, poly_eval(p, gamma, at));
            lemma_mul_zero_one(p, poly_eval(p, c, at));
            if t < erased.len() {
                lemma_roots_poly(p, erased, at);
                assert(erased[t] == at);
            }
        }
        lemma_eval_mul(p, gamma, c, 0);
        lemma_eval_zero(p, gamma);
        lemma_eval_zero(p, c);
        lemma_eval_zero(p, full);
        if erased.contains(0) {
            let j = choose|j: int| 0 <= j < erased.len() && erased[j] == 0;
            assert(xs[j] != 0);
            lemma_inv(p, xs[j]);
        }
        lemma_mul_nonzero(p, gamma[0], c[0]);
    }
}

/// Decoding corrects every block in which twice the number of errors, plus the
/// number of erasures, is no more than the number of parity bytes: it returns
/// the codeword that was sent and counts the errors and erasures, or 0 where
/// the block arrived as it was sent.
#[verifier::rlimit(30)]
pub proof fn lemma_decode_corrects(code: Code, sent: Seq<u8>, block: Seq<u8>, erasures: Seq<u8>)
    requires
        code.valid(),
        code.valid_gap(),
        code.gap < 256,
        code.is_codeword(sent),
        sent.len() == block.len(),
        valid_erasures(block.len() as int, erasures),
        erasures.len() + 2 * error_positions(sent, block, erasures, block.len()).len()
            <= code.parity,
    ensures
        code.decode(block, erasures) == Some(
            (
                if block == sent {
                    0
                } else {
                    erasures.len() + error_positions(sent, block, erasures, block.len()).len()
                },
                received_poly(sent),
            ),
        ),
{
    let p = code.modulus;
    let s = code.syndromes(block);
    let places = all_places(sent, block, erasures);
    let xs = place_points(code, places);
    let w = place_weights(code, sent, block, places);
    let received = received_poly(block);
    lemma_all_places(sent, block, erasures);
    lemma_syndromes(code, sent, block, erasures);
    assert forall|t: int| 0 <= t < xs.len() implies #[trigger] xs[t] != 0 by {
        lemma_point_nonzero(code, places[t]);
    }
    assert forall|i: int, j: int| 0 <= i < j < xs.len() implies #[trigger] xs[i]
        != #[trigger] xs[j] by {
        assert(places[i] != places[j]);
        if xs[i] == xs[j] {
            lemma_points_distinct(code, places[i], places[j]);
        }
    }
    if forall|i: int| 0 <= i < code.parity ==> #[trigger] s[i] == 0 {
        assert forall|u: nat| u < xs.len() implies #[trigger] power_sum(p, w, xs, u) == 0 by {
            assert(s[u as int] == 0);
        }
        lemma_vandermonde(p, w, xs);
        assert forall|k: int| 0 <= k < 255 implies #[trigger] difference(sent, block, k) == 0 by {
            if places.contains(k) {
                let t = choose|t: int| 0 <= t < places.len() && places[t] == k;
                assert(w[t] == 0 && xs[t] != 0);
                lemma_pow_nonzero(p, xs[t], code.first);
                lemma_mul_nonzero(p, difference(sent, block, k), gf_pow(p, xs[t], code.first));
            }
        }
        assert forall|i: int| 0 <= i < block.len() implies sent[i] == block[i] by {
            let k = block.len() - 1 - i;
            assert(difference(sent, block, k) == 0);
            lemma_xor(received_poly(sent)[k], received_poly(block)[k], 0);
        }
        assert(sent =~= block);
    } else {
        if block == sent {
            assert forall|i: int| 0 <= i < code.parity implies #[trigger] s[i] == 0 by {
                assert(code.syndrome(sent, i) == 0);
            }
            assert(false);
        }
        let erased = code.erasure_roots(block.len() as int, erasures);
        let m = erased.len() as int;
        assert forall|t: int| 0 <= t < erased.len() implies #[trigger] erased[t] == gf_inv(
            p,
            xs[t],
        ) by {
            assert(places[t] == block.len() - 1 - erasures[t]);
        }
        assert forall|t: int| erased.len() <= t < xs.len() implies #[trigger] w[t] != 0 by {
            assert(difference(sent, block, places[t]) != 0 && xs[t] != 0);
            lemma_pow_nonzero(p, xs[t], code.first);
            lemma_mul_nonzero(
                p,
                difference(sent, block, places[t]),
                gf_pow(p, xs[t], code.first),
            );
        }
        let u = lemma_error_syndromes(code, s, w, xs, erased);
        let rest = xs.skip(m);
        let ts = code.error_syndromes(s, erased);
        assert forall|t: int| 0 <= t < rest.len() implies #[trigger] rest[t] != 0 by {
            assert(xs[m + t] != 0);
        }
        assert(distinct(rest)) by {
            assert forall|i: int, j: int| 0 <= i < j < rest.len() implies #[trigger] rest[i]
                != #[trigger] rest[j] by {
                assert(xs[m + i] != xs[m + j]);
            }
        }
        lemma_massey_locates(p, ts, u, rest, code.parity);
        lemma_massey_shape(p, ts, code.parity, ts.len());
        let c = code.error_locator(s, erased);
        assert(c == massey(p, ts, code.parity, ts.len()).locator.take((rest.len() + 1) as int));
        let found = roots_below(p, c, 256);
        let others = reciprocals(p, rest);
        lemma_roots_below(p, c, 256);
        lemma_reciprocals_distinct(p, rest);
        assert forall|x: u8| #[trigger] found.contains(x) <==> others.contains(x) by {
            assert(poly_eval(p, c, x) == 0 <==> others.contains(x));
            if found.contains(x) {
                let i = choose|i: int| 0 <= i < found.len() && found[i] == x;
                assert(poly_eval(p, c, found[i]) == 0);
            }
        }
        lemma_same_elements(found, others);
        assert forall|t: int| m <= t < xs.len() implies poly_eval(p, c, gf_inv(p, #[trigger] xs[t]))
            == 0 by {
            assert(others[t - m] == gf_inv(p, xs[t]));
            assert(others.contains(gf_inv(p, xs[t])));
            assert(poly_eval(p, c, gf_inv(p, xs[t])) == 0 <==> others.contains(gf_inv(p, xs[t])));
        }
        lemma_full_locator(code, s, erased, xs);
        let full = code.full_locator(s, erased);
        let roots = erased + found;
        assert(roots.skip(m) =~= found);
        lemma_apply_corrections(code, sent, block, places, s, full, roots, m);
    }
}

/// Root `i` is the reciprocal of point `t`; the first `m` roots keep the order
/// of the points.
spec fn belongs(p: u16, xs: Seq<u8>, roots: Seq<u8>, m: int, i: int, t: int) -> bool {
    &&& 0 <= t < xs.len()
    &&& i < m ==> t == i
    &&& i >= m ==> t >= m
    &&& gf_inv(p, xs[t]) == roots[i]
}

/// Taking out Forney's values at the places of all the roots restores what was
/// sent.
proof fn lemma_apply_corrections(
    code: Code,
    sent: Seq<u8>,
    block: Seq<u8>,
    places: Seq<int>,
    s: Seq<u8>,
    full: Seq<u8>,
    roots: Seq<u8>,
    m: int,
)
    requires
        code.valid(),
        code.valid_gap(),
        code.gap < 256,
        s.len() == code.parity,
        places.len() <= code.parity,
        forall|i: int| 0 <= i < places.len() ==> 0 <= #[trigger] places[i] < 255,
        forall|i: int, j: int|
            0 <= i < j < places.len() ==> #[trigger] places[i] != #[trigger] places[j],
        forall|k: int|
            0 <= k < 255 && !places.contains(k) ==> #[trigger] difference(sent, block, k) == 0,
        is_power_sums(
            code.modulus,
            s,
            place_weights(code, sent, block, places),
            place_points(code, places),
        ),
        distinct(place_points(code, places)),
        forall|t: int|
            0 <= t < places.len() ==> #[trigger] place_points(code, places)[t] != 0,
        full.len() == places.len() + 1,
        full[0] != 0,
        forall|t: int|
            0 <= t < places.len() ==> poly_eval(
                code.modulus,
                full,
                gf_inv(code.modulus, #[trigger] place_points(code, places)[t]),
            ) == 0,
        roots.len() == places.len(),
        0 <= m <= roots.len(),
        forall|t: int|
            0 <= t < m ==> #[trigger] roots[t] == gf_inv(
                code.modulus,
                place_points(code, places)[t],
            ),
        distinct(roots.skip(m)),
        forall|x: u8|
            #[trigger] roots.skip(m).contains(x) <==> reciprocals(
                code.modulus,
                place_points(code, places).skip(m),
            ).contains(x),
    ensures
        code.corrected(s, full, roots, received_poly(block)) == received_poly(sent),
{
    let p = code.modulus;
    let xs = place_points(code, places);
    let w = place_weights(code, sent, block, places);
    let received = received_poly(block);
    let values = |k: int| difference(sent, block, k);
    let found = roots.skip(m);
    let others = reciprocals(p, xs.skip(m));
    let place_of = |i: int| choose|t: int| #[trigger] belongs(p, xs, roots, m, i, t);
    assert forall|i: int| 0 <= i < roots.len() implies {
        let t = place_of(i);
        &&& belongs(p, xs, roots, m, i, t)
        &&& #[trigger] code.location_of(roots[i]) == places[t]
        &&& code.error_value(s, full, roots[i]) == values(places[t])
    } by {
        if i < m {
            assert(roots[i] == gf_inv(p, xs[i]));
            assert(belongs(p, xs, roots, m, i, i));
        } else {
            assert(found[i - m] == roots[i]);
            assert(found.contains(roots[i]));
            assert(others.contains(roots[i]));
            let j = choose|j: int| 0 <= j < others.len() && others[j] == roots[i];
            assert(belongs(p, xs, roots, m, i, m + j));
        }
        let t = place_of(i);
        assert(belongs(p, xs, roots, m, i, t));
        let k = places[t];
        lemma_location_of(code, k);
        assert(xs[t] != 0);
        lemma_forney(p, full, s, w, xs, t);
        lemma_value_is_difference(
            p,
            ((code.gap * k) % 255) as nat,
            code.first,
            difference(sent, block, k),
        );
    }
    assert forall|i: int, j: int| 0 <= i < j < roots.len() implies #[trigger] code.location_of(
        roots[i],
    ) != #[trigger] code.location_of(roots[j]) by {
        let (a, b) = (place_of(i), place_of(j));
        assert(code.location_of(roots[i]) == places[a]);
        assert(code.location_of(roots[j]) == places[b]);
        if a == b {
            if i >= m {
                assert(found[i - m] != found[j - m]);
            }
        } else if a < b {
            assert(places[a] != places[b]);
        } else {
            assert(places[b] != places[a]);
        }
    }
    assert forall|i: int| 0 <= i < roots.len() implies 0 <= #[trigger] code.location_of(roots[i])
        < 255 && code.error_value(s, full, roots[i]) == values(code.location_of(roots[i])) by {
        let k = code.location_of(roots[i]);
        let t = place_of(i);
        assert(belongs(p, xs, roots, m, i, t));
        assert(0 <= places[t] < 255);
    }
    lemma_corrected(code, s, full, roots, received, values);
    let fixed = code.corrected(s, full, roots, received);
    assert forall|k: int| 0 <= k < 255 implies #[trigger] fixed[k] == received_poly(sent)[k] by {
        let (a, b) = (received_poly(sent)[k], received[k]);
        lemma_xor(a, b, b);
        lemma_xor(b, a, 0);
        lemma_xor(b, a, a ^ b);
        if places.contains(k) {
            let t = choose|t: int| 0 <= t < places.len() && places[t] == k;
            // some root has this place
            let i = if t < m {
                t
            } else {
                assert(xs.skip(m)[t - m] == xs[t]);
                assert(others[t - m] == gf_inv(p, xs[t]));
                assert(others.contains(gf_inv(p, xs[t])));
                assert(found.contains(gf_inv(p, xs[t])));
                let j = choose|j: int| 0 <= j < found.len() && found[j] == gf_inv(p, xs[t]);
                m + j
            };
            assert(roots[i] == gf_inv(p, xs[t]));
            lemma_location_of(code, k);
            assert(code.location_of(roots[i]) == k);
            assert(fixed[code.location_of(roots[i])] == received[k] ^ values(k));
        } else {
            assert(difference(sent, block, k) == 0);
            assert forall|i: int| 0 <= i < roots.len() implies #[trigger] code.location_of(
                roots[i],
            ) != k by {
                let t = place_of(i);
                assert(code.location_of(roots[i]) == places[t]);
                if places[t] == k {
                    assert(places.contains(k));
                }
            }
        }
    }
    assert(fixed =~= received_poly(sent));
}

/// The message bytes of a codeword are its first bytes.
proof fn lemma_message_of(sent: Seq<u8>, parity: int)
    requires
        0 <= parity <= sent.len() <= 255,
    ensures
        message_of(received_poly(sent), sent.len() as int, parity) == sent.take(
            sent.len() - parity,
        ),
{
    assert(message_of(received_poly(sent), sent.len() as int, parity) =~= sent.take(
        sent.len() - parity,
    ));
}

/// Encoding a message and decoding what arrives gives the message back, as long
/// as twice the number of errors plus the number of erasures does not exceed
/// the number of parity bytes.
pub proof fn lemma_round_trip(
    code: Code,
    msg: Seq<u8>,
    sent: Seq<u8>,
    block: Seq<u8>,
    erasures: Seq<u8>,
)
    requires
        code.valid(),
        code.valid_gap(),
        code.gap < 256,
        code.is_encoding(msg, sent),
        sent.len() <= 255,
        sent.len() == block.len(),
        valid_erasures(block.len() as int, erasures),
        erasures.len() + 2 * error_positions(sent, block, erasures, block.len()).len()
            <= code.parity,
    ensures
        code.all_located(block, erasures),
        code.decode(block, erasures) matches Some((count, poly)) && message_of(
            poly,
            block.len() as int,
            code.parity as int,
        ) == msg && count == if block == sent {
            0
        } else {
            erasures.len() + error_positions(sent, block, erasures, block.len()).len()
        },
{
    lemma_all_located(code, block, erasures);
    lemma_encoding_is_codeword(code, msg, sent);
    lemma_decode_corrects(code, sent, block, erasures);
    lemma_message_of(sent, code.parity as int);
}

/// The basis does not matter to where the errors are.
proof fn lemma_dual_errors(sent: Seq<u8>, block: Seq<u8>, erasures: Seq<u8>, n: nat)
    requires
        n <= sent.len(),
        n <= block.len(),
    ensures
        error_positions(seq_to_conv(sent), seq_to_conv(block), erasures, n) == error_positions(
            sent,
            block,
            erasures,
            n,
        ),
    decreases n,
{
    if n > 0 {
        lemma_dual_errors(sent, block, erasures, (n - 1) as nat);
        lemma_maps_are_inverse(sent[n - 1]);
        lemma_maps_are_inverse(block[n - 1]);
    }
}

/// The round trip on the wire of the dual basis: the message that was encoded
/// comes back within the same limits, counted in bytes on the wire.
pub proof fn lemma_dual_round_trip(
    code: Code,
    msg: Seq<u8>,
    sent: Seq<u8>,
    block: Seq<u8>,
    erasures: Seq<u8>,
)
    requires
        code.valid(),
        code.valid_gap(),
        code.gap < 256,
        code.is_encoding(seq_to_conv(msg), seq_to_conv(sent)),
        sent.len() <= 255,
        sent.len() == block.len(),
        valid_erasures(block.len() as int, erasures),
        erasures.len() + 2 * error_positions(sent, block, erasures, block.len()).len()
            <= code.parity,
    ensures
        code.all_located(seq_to_conv(block), erasures),
        code.decode(seq_to_conv(block), erasures) matches Some((count, poly)) && seq_to_dual(
            message_of(poly, block.len() as int, code.parity as int),
        ) == msg && count == if block == sent {
            0
        } else {
            erasures.len() + error_positions(sent, block, erasures, block.len()).len()
        },
{
    let (conv_sent, conv_block) = (seq_to_conv(sent), seq_to_conv(block));
    lemma_dual_errors(sent, block, erasures, block.len());
    lemma_round_trip(code, seq_to_conv(msg), conv_sent, conv_block, erasures);
    assert forall|i: int| 0 <= i < msg.len() implies seq_to_dual(seq_to_conv(msg))[i]
        == #[trigger] msg[i] by {
        lemma_maps_are_inverse(msg[i]);
    }
    assert(seq_to_dual(seq_to_conv(msg)) =~= msg);
    if conv_block == conv_sent {
        assert forall|i: int| 0 <= i < block.len() implies block[i] == #[trigger] sent[i] by {
            assert(conv_block[i] == conv_sent[i]);
            lemma_maps_are_inverse(sent[i]);
            lemma_maps_are_inverse(block[i]);
        }
        assert(block =~= sent);
    }
}

/// A block without error decodes to its own message with nothing corrected.
pub proof fn lemma_clean_block(code: Code, sent: Seq<u8>, erasures: Seq<u8>)
    requires
        code.valid(),
        code.is_codeword(sent),
    ensures
        code.decode(sent, erasures) matches Some((count, poly)) && count == 0 && message_of(
            poly,
            sent.len() as int,
            code.parity as int,
        ) == sent.take(sent.len() - code.parity),
{
    let s = code.syndromes(sent);
    assert forall|i: int| 0 <= i < code.parity implies #[trigger] s[i] == 0 by {
        assert(code.syndrome(sent, i) == 0);
    }
    lemma_message_of(sent, code.parity as int);
}

/// The CCSDS code is one of the codes that the correction guarantee covers.
pub proof fn lemma_ccsds_valid()
    ensures
        Code::ccsds().valid(),
        Code::ccsds().valid_gap(),
        Code::ccsds().gap < 256,
{
    lemma_primitive_polynomials(CCSDS_PRIMITIVE_POLYNOMIAL);
}

} // verus!
