//! Reed-Solomon decoder.

use super::ccsds;
use super::ccsds::{seq_to_conv, seq_to_dual, to_dual};
use super::code::Code;
use super::decoding::{
    element_power, lemma_first_location, lemma_point_nonzero, lemma_points_distinct,
    lemma_received_eval, lemma_roots_below_bound, message_of, received_poly, roots_below,
};
use super::field::{Field, FieldElement, FieldLogarithm, FieldOperation};
use super::forney::error_evaluator;
use super::galois::{
    alpha_pow, gf_div, gf_inv, gf_log, gf_mul, is_primitive, lemma_alpha_distinct, lemma_inv,
    lemma_log, lemma_log_bound, lemma_xor,
};
use super::massey::{adjusted, discrepancy, lemma_massey_shape, massey, massey_shape, one_poly};
use super::poly_model::{coef, conv, poly_derivative, poly_eval, poly_mul, roots_poly};
use super::polynomial::{
    generator_roots, is_exp_lut, lemma_log_lut_eval, lemma_lut_eval, polynomial_build_exp_lut,
    polynomial_eval_log_lut, polynomial_eval_lut, polynomial_formal_derivative,
    polynomial_init_from_roots, polynomial_mul, reed_solomon_build_generator, Polynomial,
};
use super::primitive::{is_primitive_polynomial, lemma_primitive_polynomials};
use super::sums::gf_sum;
use vstd::prelude::*;

verus! {

/// Error returned by [`RsDecoder::decode`] and
/// [`RsDecoder::decode_with_erasures`].
#[derive(Debug, Clone, Copy, PartialEq, Eq, Hash)]
#[non_exhaustive]
pub enum DecodeError {
    /// The encoded block was longer than the code's block length.
    BlockTooLong,
    /// More erasures were supplied than the code has parity symbols.
    TooManyErasures,
    /// The block had more corruption than the code can correct.
    TooManyErrors,
}

/// Reed-Solomon decoder over GF(2^8).
#[derive(Clone, Debug)]
pub struct RsDecoder {
    /// The block length in bytes, always 255.
    pub block_length: usize,
    /// The message capacity in bytes.
    pub message_length: usize,
    /// The number of parity symbols.
    pub min_distance: usize,
    first_consecutive_root: FieldLogarithm,
    generator_root_gap: FieldLogarithm,
    field: Field,
    // syndromes[i] is the received block's value at the generator's ith root
    syndromes: Vec<FieldElement>,
    // the received block, reversed and zero-padded
    received_polynomial: Vec<FieldElement>,
    // the error locator, and the same in logarithms
    error_locator: Vec<FieldElement>,
    error_locator_order: usize,
    error_locator_log: Vec<FieldElement>,
    error_locator_log_order: usize,
    // roots of the error locator, the errors there and the positions they map to
    error_roots: Vec<FieldElement>,
    error_vals: Vec<FieldElement>,
    error_locations: Vec<FieldLogarithm>,
    // the locator from before the length last grew
    last_error_locator: Vec<FieldElement>,
    last_error_locator_order: usize,
    // error evaluator and locator derivative
    error_evaluator: Vec<FieldElement>,
    error_evaluator_order: usize,
    error_locator_derivative: Vec<FieldElement>,
    error_locator_derivative_order: usize,
    // successive powers of each root of the generator, over the block length
    generator_root_exp: Vec<Vec<FieldLogarithm>>,
    // successive powers of each field element, up to the order of a locator
    element_exp: Vec<Vec<FieldLogarithm>>,
    // syndromes multiplied by the erasure locator
    modified_syndromes: Vec<FieldElement>,
    // locator of the erased positions
    erasure_locator: Vec<FieldElement>,
    erasure_locator_order: usize,
    init_from_roots_scratch0: Vec<FieldElement>,
    init_from_roots_scratch1: Vec<FieldElement>,
    // the syndromes, while their place holds the modified ones
    syndrome_copy: Vec<FieldElement>,
    // swapped with error_locator to hold the product of both locators
    combined_locator: Vec<FieldElement>,
}

impl RsDecoder {
    /// The code that this decoder decodes.
    pub closed spec fn code(self) -> Code {
        Code {
            modulus: self.field.modulus(),
            first: self.first_consecutive_root as nat,
            gap: self.generator_root_gap as nat,
            parity: self.min_distance as nat,
        }
    }

    /// The tables belong to the code and every buffer has its length.
    pub closed spec fn wf(self) -> bool {
        let n = self.min_distance;
        &&& self.field.wf()
        &&& self.code().valid()
        &&& self.block_length == 255
        &&& self.message_length + n == 255
        &&& self.syndromes@.len() == n
        &&& self.received_polynomial@.len() == 255
        &&& self.error_locator@.len() == n + 1
        &&& self.error_locator_log@.len() == n + 1
        &&& self.error_roots@.len() == 2 * n
        &&& self.error_vals@.len() == n
        &&& self.error_locations@.len() == n
        &&& self.last_error_locator@.len() == n + 1
        &&& self.error_evaluator@.len() == n
        &&& self.error_evaluator_order == n - 1
        &&& self.error_locator_derivative@.len() == n
        &&& self.modified_syndromes@.len() == 2 * n
        &&& self.erasure_locator@.len() == n + 1
        &&& self.init_from_roots_scratch0@.len() == n + 1
        &&& self.init_from_roots_scratch1@.len() == n + 1
        &&& self.syndrome_copy@.len() == n
        &&& self.combined_locator@.len() == n + 1
        &&& self.generator_root_exp@.len() == n
        &&& forall|i: int|
            0 <= i < n ==> {
                &&& (#[trigger] self.generator_root_exp@[i])@.len() == 255
                &&& is_exp_lut(
                    self.field.modulus(),
                    self.code().root(i),
                    self.generator_root_exp@[i]@,
                    255,
                )
            }
        &&& self.element_exp@.len() == 256
        &&& forall|e: int|
            0 <= e < 256 ==> {
                &&& (#[trigger] self.element_exp@[e])@.len() == n + 1
                &&& is_exp_lut(self.field.modulus(), e as u8, self.element_exp@[e]@, n + 1)
            }
        &&& forall|i: int| 0 <= i < n ==> #[trigger] self.error_locations@[i] < 255
    }

    /// Builds a decoder for a (255, 255 - `num_roots`) Reed-Solomon code. The
    /// parameters must match those used to encode. Building the decoder
    /// precomputes its lookup tables, so prefer to construct it once and reuse
    /// it.
    pub fn new(
        primitive_polynomial: FieldOperation,
        first_consecutive_root: FieldLogarithm,
        generator_root_gap: FieldLogarithm,
        num_roots: usize,
    ) -> (decoder: RsDecoder)
        requires
            is_primitive_polynomial(primitive_polynomial),
            1 <= num_roots <= 255,
        ensures
            decoder.wf(),
            decoder.code() == (Code {
                modulus: primitive_polynomial,
                first: first_consecutive_root as nat,
                gap: generator_root_gap as nat,
                parity: num_roots as nat,
            }),
    {
        proof {
            lemma_primitive_polynomials(primitive_polynomial);
        }
        let field = Field::new(primitive_polynomial);
        let block_length: usize = 255;
        let min_distance: usize = num_roots;
        let message_length: usize = block_length - min_distance;

        // only the roots are needed here; the generator itself is discarded
        let mut roots: Vec<FieldElement> = vec![0u8; min_distance];
        let mut generator: Vec<FieldElement> = vec![0u8; min_distance + 1];
        assert(generator_root_gap * (min_distance + first_consecutive_root) <= 255 * 510)
            by (nonlinear_arith)
            requires
                generator_root_gap <= 255,
                min_distance + first_consecutive_root <= 510,
        ;
        reed_solomon_build_generator(
            &field,
            min_distance,
            first_consecutive_root,
            generator_root_gap as usize,
            &mut generator,
            &mut roots,
        );
        let ghost code = Code {
            modulus: primitive_polynomial,
            first: first_consecutive_root as nat,
            gap: generator_root_gap as nat,
            parity: num_roots as nat,
        };
        assert(roots@.take(min_distance as int) =~= roots@);

        let mut generator_root_exp: Vec<Vec<FieldLogarithm>> = Vec::with_capacity(min_distance);
        let mut i: usize = 0;
        while i < min_distance
            invariant
                i <= min_distance,
                field.wf(),
                field.modulus() == code.modulus,
                is_primitive(code.modulus),
                block_length == 255,
                min_distance == code.parity,
                roots@ == generator_roots(code.modulus, code.first, code.gap, code.parity),
                generator_root_exp@.len() == i,
                forall|k: int|
                    0 <= k < i ==> {
                        &&& (#[trigger] generator_root_exp@[k])@.len() == 255
                        &&& is_exp_lut(
                            code.modulus,
                            code.root(k),
                            generator_root_exp@[k]@,
                            255,
                        )
                    },
            decreases min_distance - i,
        {
            let mut lut: Vec<FieldLogarithm> = vec![0u8; block_length];
            polynomial_build_exp_lut(&field, roots[i], block_length - 1, &mut lut);
            generator_root_exp.push(lut);
            i = i + 1;
        }

        let mut element_exp: Vec<Vec<FieldLogarithm>> = Vec::with_capacity(256);
        let mut e: u16 = 0;
        while e < 256
            invariant
                e <= 256,
                field.wf(),
                field.modulus() == code.modulus,
                is_primitive(code.modulus),
                min_distance <= 255,
                element_exp@.len() == e,
                forall|k: int|
                    0 <= k < e ==> {
                        &&& (#[trigger] element_exp@[k])@.len() == min_distance + 1
                        &&& is_exp_lut(
                            code.modulus,
                            k as u8,
                            element_exp@[k]@,
                            min_distance + 1,
                        )
                    },
            decreases 256 - e,
        {
            let mut lut: Vec<FieldLogarithm> = vec![0u8; min_distance + 1];
            polynomial_build_exp_lut(&field, e as FieldElement, min_distance, &mut lut);
            element_exp.push(lut);
            e = e + 1;
        }

        RsDecoder {
            block_length,
            message_length,
            min_distance,
            first_consecutive_root,
            generator_root_gap,
            field,
            syndromes: vec![0u8; min_distance],
            received_polynomial: vec![0u8; block_length],
            error_locator: vec![0u8; min_distance + 1],
            error_locator_order: 0,
            error_locator_log: vec![0u8; min_distance + 1],
            error_locator_log_order: 0,
            error_roots: vec![0u8; 2 * min_distance],
            error_vals: vec![0u8; min_distance],
            error_locations: vec![0u8; min_distance],
            last_error_locator: vec![0u8; min_distance + 1],
            last_error_locator_order: 0,
            error_evaluator: vec![0u8; min_distance],
            error_evaluator_order: min_distance - 1,
            error_locator_derivative: vec![0u8; min_distance],
            error_locator_derivative_order: min_distance - 1,
            generator_root_exp,
            element_exp,
            modified_syndromes: vec![0u8; 2 * min_distance],
            erasure_locator: vec![0u8; min_distance + 1],
            erasure_locator_order: 0,
            init_from_roots_scratch0: vec![0u8; min_distance + 1],
            init_from_roots_scratch1: vec![0u8; min_distance + 1],
            syndrome_copy: vec![0u8; min_distance],
            combined_locator: vec![0u8; min_distance + 1],
        }
    }

    /// The block length in bytes, always 255.
    pub fn block_length(&self) -> (len: usize)
        requires
            self.wf(),
        ensures
            len == 255,
    {
        self.block_length
    }

    /// The message capacity in bytes, `block_length - num_roots`.
    pub fn message_length(&self) -> (len: usize)
        requires
            self.wf(),
        ensures
            len == 255 - self.code().parity,
    {
        self.message_length
    }

    /// The number of parity symbols, `num_roots`. The code corrects up to
    /// `min_distance / 2` byte errors per block.
    pub fn min_distance(&self) -> (distance: usize)
        requires
            self.wf(),
        ensures
            distance == self.code().parity,
    {
        self.min_distance
    }

    /// Evaluates the received polynomial at every root of the generator. What
    /// was sent vanishes there, so what remains is the value of the errors.
    /// Returns whether all the syndromes are zero.
    fn find_syndromes(&mut self) -> (all_zero: bool)
        requires
            old(self).wf(),
        ensures
            *final(self) == (RsDecoder { syndromes: final(self).syndromes, ..*old(self) }),
            final(self).syndromes@ == Seq::new(
                old(self).code().parity,
                |i: int|
                    poly_eval(
                        old(self).code().modulus,
                        old(self).received_polynomial@,
                        old(self).code().root(i),
                    ),
            ),
            all_zero == forall|i: int|
                0 <= i < old(self).code().parity ==> #[trigger] final(self).syndromes@[i] == 0,
    {
        let ghost start = *self;
        let ghost p = self.code().modulus;
        let ghost received = self.received_polynomial@;
        let mut all_zero: bool = true;
        let n: usize = self.min_distance;
        let mut i: usize = 0;
        while i < n
            invariant
                i <= n,
                start.wf(),
                n == start.min_distance,
                p == start.code().modulus,
                received == start.received_polynomial@,
                *self == (RsDecoder { syndromes: self.syndromes, ..start }),
                self.syndromes@.len() == n,
                forall|k: int|
                    0 <= k < i ==> #[trigger] self.syndromes@[k] == poly_eval(
                        p,
                        received,
                        start.code().root(k),
                    ),
                all_zero ==> forall|k: int| 0 <= k < i ==> #[trigger] self.syndromes@[k] == 0,
                !all_zero ==> exists|k: int| 0 <= k < i && #[trigger] self.syndromes@[k] != 0,
            decreases n - i,
        {
            let eval: u8 = polynomial_eval_lut(
                &self.field,
                &Polynomial::new(&self.received_polynomial, self.block_length - 1),
                &self.generator_root_exp[i],
            );
            proof {
                assert(received.take(255) =~= received);
                lemma_lut_eval(
                    p,
                    received,
                    start.generator_root_exp@[i as int]@,
                    start.code().root(i as int),
                    255,
                );
            }
            let ghost before = self.syndromes@;
            self.syndromes[i] = eval;
            proof {
                if !all_zero {
                    let k = choose|k: int| 0 <= k < i && #[trigger] before[k] != 0;
                    assert(self.syndromes@[k] != 0);
                }
                assert(self.syndromes@[i as int] == eval);
            }
            if eval != 0 {
                all_zero = false;
            }
            i = i + 1;
        }
        all_zero
    }

    /// `error_locator += (d / last_discrepancy) * x^delay * last_error_locator`,
    /// leaving the previous locator in `last_error_locator` where `keep` is set.
    fn adjust_locator(
        &mut self,
        d: FieldElement,
        last_discrepancy: FieldElement,
        delay: usize,
        keep: bool,
    )
        requires
            old(self).wf(),
            delay >= 1,
        ensures
            *final(self) == (RsDecoder {
                error_locator: final(self).error_locator,
                last_error_locator: final(self).last_error_locator,
                ..*old(self)
            }),
            final(self).error_locator@.len() == old(self).error_locator@.len(),
            forall|k: int|
                0 <= k < old(self).error_locator@.len() ==> #[trigger] final(self).error_locator@[k] == old(self).error_locator@[k] ^ gf_div(
                    old(self).code().modulus,
                    gf_mul(
                        old(self).code().modulus,
                        coef(old(self).last_error_locator@, k - delay),
                        d,
                    ),
                    last_discrepancy,
                ),
            final(self).last_error_locator@ == if keep {
                old(self).error_locator@
            } else {
                old(self).last_error_locator@
            },
    {
        let ghost start = *self;
        let ghost p = self.code().modulus;
        let n: usize = self.min_distance;
        let mut k: usize = n + 1;
        while k > 0
            invariant
                k <= n + 1,
                delay >= 1,
                start.wf(),
                n == start.min_distance,
                p == start.code().modulus,
                *self == (RsDecoder {
                    error_locator: self.error_locator,
                    last_error_locator: self.last_error_locator,
                    ..start
                }),
                self.error_locator@.len() == n + 1,
                self.last_error_locator@.len() == n + 1,
                forall|t: int|
                    k <= t <= n ==> #[trigger] self.error_locator@[t] == start.error_locator@[t]
                        ^ gf_div(
                        p,
                        gf_mul(p, coef(start.last_error_locator@, t - delay), d),
                        last_discrepancy,
                    ),
                forall|t: int|
                    0 <= t < k ==> #[trigger] self.error_locator@[t] == start.error_locator@[t],
                forall|t: int|
                    k <= t <= n ==> #[trigger] self.last_error_locator@[t] == if keep {
                        start.error_locator@[t]
                    } else {
                        start.last_error_locator@[t]
                    },
                forall|t: int|
                    0 <= t < k ==> #[trigger] self.last_error_locator@[t]
                        == start.last_error_locator@[t],
            decreases k,
        {
            k = k - 1;
            let temp: u8 = self.error_locator[k];
            let shifted: u8 = if k >= delay {
                self.last_error_locator[k - delay]
            } else {
                0
            };
            let term: u8 = self.field.div(self.field.mul(shifted, d), last_discrepancy);
            self.error_locator[k] = self.field.add(temp, term);
            if keep {
                self.last_error_locator[k] = temp;
            }
        }
        assert(self.last_error_locator@ =~= if keep {
            start.error_locator@
        } else {
            start.last_error_locator@
        });
    }

    /// Berlekamp-Massey: finds the shortest locator that generates the first
    /// `min_distance - num_erasures` syndromes, and returns its length.
    fn find_error_locator(&mut self, num_erasures: usize) -> (order: usize)
        requires
            old(self).wf(),
            num_erasures <= old(self).code().parity,
        ensures
            *final(self) == (RsDecoder {
                error_locator: final(self).error_locator,
                error_locator_order: final(self).error_locator_order,
                last_error_locator: final(self).last_error_locator,
                last_error_locator_order: final(self).last_error_locator_order,
                ..*old(self)
            }),
            final(self).last_error_locator@.len() == old(self).last_error_locator@.len(),
            ({
                let code = old(self).code();
                let s = old(self).syndromes@.take(code.parity - num_erasures);
                let st = massey(code.modulus, s, code.parity, s.len());
                &&& final(self).error_locator@ == st.locator
                &&& final(self).error_locator_order == st.length
                &&& order == st.length
            }),
    {
        let ghost start = *self;
        let ghost p = self.code().modulus;
        let n: usize = self.min_distance;
        let total: usize = n - num_erasures;
        let ghost s = start.syndromes@.take(total as int);

        let mut c: usize = 0;
        while c <= n
            invariant
                c <= n + 1,
                n <= 255,
                n == start.min_distance,
                *self == (RsDecoder {
                    error_locator: self.error_locator,
                    last_error_locator: self.last_error_locator,
                    ..start
                }),
                self.error_locator@.len() == n + 1,
                self.last_error_locator@.len() == n + 1,
                forall|t: int|
                    0 <= t < c ==> #[trigger] self.error_locator@[t] == one_poly(n as nat)[t],
                forall|t: int|
                    0 <= t < c ==> #[trigger] self.last_error_locator@[t] == one_poly(n as nat)[t],
            decreases n + 1 - c,
        {
            let v: u8 = if c == 0 {
                1
            } else {
                0
            };
            self.error_locator[c] = v;
            self.last_error_locator[c] = v;
            c = c + 1;
        }
        self.error_locator_order = 0;
        self.last_error_locator_order = 0;
        assert(self.error_locator@ =~= one_poly(n as nat));
        assert(self.last_error_locator@ =~= one_poly(n as nat));

        let mut numerrors: usize = 0;
        let mut last_discrepancy: FieldElement = 1;
        let mut delay_length: usize = 1;
        let mut i: usize = 0;
        while i < total
            invariant
                i <= total <= n,
                n <= 255,
                start.wf(),
                n == start.min_distance,
                p == start.code().modulus,
                is_primitive(p),
                s == start.syndromes@.take(total as int),
                *self == (RsDecoder {
                    error_locator: self.error_locator,
                    error_locator_order: self.error_locator_order,
                    last_error_locator: self.last_error_locator,
                    last_error_locator_order: self.last_error_locator_order,
                    ..start
                }),
                ({
                    let st = massey(p, s, n as nat, i as nat);
                    &&& self.error_locator@ == st.locator
                    &&& self.error_locator_order == st.length
                    &&& numerrors == st.length
                    &&& self.last_error_locator@ == st.last
                    &&& self.last_error_locator_order == st.last_length
                    &&& last_discrepancy == st.last_discrepancy
                    &&& delay_length == st.delay
                }),
            decreases total - i,
        {
            let ghost st = massey(p, s, n as nat, i as nat);
            proof {
                lemma_massey_shape(p, s, n as nat, i as nat);
                lemma_massey_shape(p, s, n as nat, (i + 1) as nat);
            }
            assert(massey_shape(st, n as nat, i as nat));
            assert(self.error_locator@.len() == n + 1);
            let ghost f = |j: int| gf_mul(p, st.locator[j + 1], s[i - (j + 1)]);
            let ghost mut acc: u8 = 0;
            let first: u8 = self.syndromes[i];
            let mut sum: u8 = 0;
            let mut j: usize = 1;
            while j <= numerrors
                invariant
                    1 <= j <= numerrors + 1,
                    numerrors <= i,
                    numerrors <= n,
                    i < total <= n,
                    n <= 255,
                    start.wf(),
                    n == start.min_distance,
                    p == start.code().modulus,
                    s == start.syndromes@.take(total as int),
                    self.field == start.field,
                    self.syndromes == start.syndromes,
                    self.error_locator@ == st.locator,
                    self.error_locator@.len() == n + 1,
                    f == (|j: int| gf_mul(p, st.locator[j + 1], s[i - (j + 1)])),
                    sum == gf_sum((j - 1) as nat, f),
                decreases numerrors + 1 - j,
            {
                let term: u8 = self.field.mul(self.error_locator[j], self.syndromes[i - j]);
                assert(term == f(j - 1));
                assert(gf_sum(j as nat, f) == gf_sum((j - 1) as nat, f) ^ f(j - 1));
                sum = self.field.add(sum, term);
                j = j + 1;
            }
            let disc: u8 = self.field.add(first, sum);
            assert(disc == discrepancy(p, s, st, i as int));

            if disc == 0 {
                // the locator describes this syndrome too
                delay_length = delay_length + 1;
            } else if 2 * numerrors <= i {
                // there is room for more taps: lengthen, and remember where
                // the previous locator failed
                self.adjust_locator(disc, last_discrepancy, delay_length, true);
                assert(self.error_locator@ =~= adjusted(p, st, disc));
                let temp_order: usize = self.error_locator_order;
                self.error_locator_order = self.last_error_locator_order + delay_length;
                self.last_error_locator_order = temp_order;
                numerrors = i + 1 - numerrors;
                last_discrepancy = disc;
                delay_length = 1;
            } else {
                self.adjust_locator(disc, last_discrepancy, delay_length, false);
                assert(self.error_locator@ =~= adjusted(p, st, disc));
                self.error_locator_order = if self.last_error_locator_order + delay_length
                    > self.error_locator_order {
                    self.last_error_locator_order + delay_length
                } else {
                    self.error_locator_order
                };
                delay_length = delay_length + 1;
            }
            i = i + 1;
        }
        proof {
            lemma_massey_shape(p, s, n as nat, total as nat);
        }
        self.error_locator_order
    }

    /// The error evaluator: the product of locator and syndromes, cut off at
    /// the number of syndromes.
    fn find_error_evaluator(&mut self)
        requires
            old(self).wf(),
            old(self).error_locator_order <= old(self).code().parity,
        ensures
            *final(self) == (RsDecoder {
                error_evaluator: final(self).error_evaluator,
                ..*old(self)
            }),
            final(self).error_evaluator@ == error_evaluator(
                old(self).code().modulus,
                old(self).error_locator@.take(old(self).error_locator_order + 1),
                old(self).syndromes@,
            ),
    {
        let locator = Polynomial::new(&self.error_locator, self.error_locator_order);
        let syndromes = Polynomial::new(&self.syndromes, self.min_distance - 1);
        assert(syndromes.coeffs() =~= self.syndromes@);
        polynomial_mul(
            &self.field,
            &locator,
            &syndromes,
            &mut self.error_evaluator,
            self.error_evaluator_order,
        );
        assert(self.error_evaluator@ =~= error_evaluator(
            old(self).code().modulus,
            old(self).error_locator@.take(old(self).error_locator_order + 1),
            old(self).syndromes@,
        ));
    }

    /// Forney's algorithm: the error at each of the locator's roots.
    fn find_error_values(&mut self)
        requires
            old(self).wf(),
            1 <= old(self).error_locator_order <= old(self).code().parity,
            forall|i: int|
                0 <= i < old(self).error_locator_order ==> #[trigger] old(self).error_roots@[i]
                    != 0,
        ensures
            *final(self) == (RsDecoder {
                error_evaluator: final(self).error_evaluator,
                error_locator_derivative: final(self).error_locator_derivative,
                error_locator_derivative_order: final(self).error_locator_derivative_order,
                error_vals: final(self).error_vals,
                ..*old(self)
            }),
            final(self).wf(),
            forall|i: int|
                0 <= i < old(self).error_locator_order ==> #[trigger] final(self).error_vals@[i]
                    == old(self).code().error_value(
                    old(self).syndromes@,
                    old(self).error_locator@.take(old(self).error_locator_order + 1),
                    old(self).error_roots@[i],
                ),
    {
        let ghost start = *self;
        let ghost code = self.code();
        let ghost p = code.modulus;
        let order: usize = self.error_locator_order;
        let ghost locator = self.error_locator@.take(order + 1);
        self.find_error_evaluator();

        self.error_locator_derivative_order = order - 1;
        let poly = Polynomial::new(&self.error_locator, order);
        polynomial_formal_derivative(
            &self.field,
            &poly,
            &mut self.error_locator_derivative,
            self.error_locator_derivative_order,
        );
        let ghost der = self.error_locator_derivative@.take(order as int);
        assert(der =~= poly_derivative(locator));
        assert(self.error_evaluator@.take(start.min_distance as int) =~= self.error_evaluator@);

        let mut i: usize = 0;
        while i < order
            invariant
                i <= order,
                start.wf(),
                self.wf(),
                code == start.code(),
                code == self.code(),
                p == code.modulus,
                order == start.error_locator_order,
                1 <= order <= code.parity,
                locator == start.error_locator@.take(order + 1),
                der == poly_derivative(locator),
                *self == (RsDecoder {
                    error_evaluator: self.error_evaluator,
                    error_locator_derivative: self.error_locator_derivative,
                    error_locator_derivative_order: self.error_locator_derivative_order,
                    error_vals: self.error_vals,
                    ..start
                }),
                self.error_locator_derivative_order == order - 1,
                self.error_locator_derivative@.take(order as int) == der,
                self.error_evaluator@ == error_evaluator(p, locator, start.syndromes@),
                self.error_evaluator@.take(start.min_distance as int) == self.error_evaluator@,
                forall|k: int| 0 <= k < order ==> #[trigger] start.error_roots@[k] != 0,
                forall|k: int|
                    0 <= k < i ==> #[trigger] self.error_vals@[k] == code.error_value(
                        start.syndromes@,
                        locator,
                        start.error_roots@[k],
                    ),
            decreases order - i,
        {
            let root: u8 = self.error_roots[i];
            let eval_evaluator: u8 = polynomial_eval_lut(
                &self.field,
                &Polynomial::new(&self.error_evaluator, self.error_evaluator_order),
                &self.element_exp[root as usize],
            );
            let eval_derivative: u8 = polynomial_eval_lut(
                &self.field,
                &Polynomial::new(
                    &self.error_locator_derivative,
                    self.error_locator_derivative_order,
                ),
                &self.element_exp[root as usize],
            );
            proof {
                let lut = self.element_exp@[root as int]@;
                lemma_lut_eval(p, self.error_evaluator@, lut, root, start.min_distance + 1);
                lemma_lut_eval(p, der, lut, root, start.min_distance + 1);
                lemma_log_bound(p, root);
                let (a, b) = (gf_log(p, root) as int, self.first_consecutive_root - 1);
                assert(-0x8000_0000 <= a * b <= 0x7fff_ffff) by (nonlinear_arith)
                    requires
                        0 <= a <= 255,
                        -1 <= b <= 254,
                ;
            }
            let scale: u8 = self.field.pow(root, self.first_consecutive_root as i32 - 1);
            let quotient: u8 = self.field.div(eval_evaluator, eval_derivative);
            self.error_vals[i] = self.field.mul(scale, quotient);
            i = i + 1;
        }
    }

    /// Chien search: tries every field element as a root of the locator, and
    /// stores the roots after the first `num_skip`. Returns whether there are
    /// as many as the locator's order asks for.
    fn factorize_error_locator(&mut self, num_skip: usize) -> (found_all: bool)
        requires
            old(self).wf(),
            num_skip + old(self).error_locator_log_order <= old(self).code().parity,
            old(self).error_locator@[0] != 0,
            forall|i: int|
                0 <= i <= old(self).error_locator_log_order ==> #[trigger] old(self).error_locator_log@[i] == gf_log(
                    old(self).code().modulus,
                    old(self).error_locator@[i],
                ),
        ensures
            *final(self) == (RsDecoder { error_roots: final(self).error_roots, ..*old(self) }),
            final(self).wf(),
            ({
                let order = old(self).error_locator_log_order;
                let found = roots_below(
                    old(self).code().modulus,
                    old(self).error_locator@.take(order + 1),
                    256,
                );
                &&& found_all == (found.len() == order)
                &&& found.len() <= order
                &&& final(self).error_roots@.subrange(
                    num_skip as int,
                    num_skip + found.len(),
                ) == found
                &&& forall|k: int|
                    0 <= k < num_skip ==> #[trigger] final(self).error_roots@[k] == old(self).error_roots@[k]
            }),
    {
        let ghost start = *self;
        let ghost p = self.code().modulus;
        let n: usize = self.min_distance;
        let order: usize = self.error_locator_log_order;
        let ghost c = self.error_locator@.take(order + 1);
        let mut k: usize = num_skip;
        while k < num_skip + order
            invariant
                num_skip <= k <= num_skip + order,
                num_skip + order <= n <= 255,
                start.wf(),
                n == start.min_distance,
                *self == (RsDecoder { error_roots: self.error_roots, ..start }),
                self.error_roots@.len() == 2 * n,
                forall|t: int|
                    0 <= t < num_skip ==> #[trigger] self.error_roots@[t] == start.error_roots@[t],
            decreases num_skip + order - k,
        {
            self.error_roots[k] = 0;
            k = k + 1;
        }
        let mut root: usize = num_skip;
        let mut i: u16 = 0;
        while i < 256
            invariant
                i <= 256,
                start.wf(),
                n == start.min_distance,
                p == start.code().modulus,
                is_primitive(p),
                order == start.error_locator_log_order,
                num_skip + order <= n <= 255,
                c == start.error_locator@.take(order + 1),
                c[0] != 0,
                *self == (RsDecoder { error_roots: self.error_roots, ..start }),
                self.error_roots@.len() == 2 * n,
                forall|t: int|
                    0 <= t <= order ==> #[trigger] start.error_locator_log@[t] == gf_log(
                        p,
                        start.error_locator@[t],
                    ),
                root == num_skip + roots_below(p, c, i as nat).len(),
                roots_below(p, c, i as nat).len() <= order,
                forall|t: int|
                    num_skip <= t < root ==> #[trigger] self.error_roots@[t] == roots_below(
                        p,
                        c,
                        i as nat,
                    )[t - num_skip],
                forall|t: int|
                    0 <= t < num_skip ==> #[trigger] self.error_roots@[t] == start.error_roots@[t],
            decreases 256 - i,
        {
            let eval: u8 = polynomial_eval_log_lut(
                &self.field,
                &Polynomial::new(&self.error_locator_log, order),
                &self.element_exp[i as usize],
            );
            proof {
                let logs = start.error_locator_log@.take(order + 1);
                assert forall|t: int| 0 <= t < c.len() implies #[trigger] logs[t] == gf_log(
                    p,
                    c[t],
                ) by {
                    assert(start.error_locator_log@[t] == gf_log(p, start.error_locator@[t]));
                }
                lemma_log_lut_eval(
                    p,
                    logs,
                    c,
                    start.element_exp@[i as int]@,
                    i as u8,
                    n + 1,
                );
                lemma_roots_below_bound(p, c, i as nat);
                lemma_roots_below_bound(p, c, (i + 1) as nat);
            }
            if eval == 0 {
                self.error_roots[root] = i as FieldElement;
                root = root + 1;
            }
            i = i + 1;
        }
        assert(self.error_roots@.subrange(num_skip as int, root as int) =~= roots_below(p, c, 256));
        root == order + num_skip
    }

    /// Maps each of the first `num_errors` roots to a position of the block: the
    /// root's reciprocal is the point of that position.
    fn find_error_locations(&mut self, num_errors: usize)
        requires
            old(self).wf(),
            num_errors <= old(self).code().parity,
            forall|i: int| 0 <= i < num_errors ==> #[trigger] old(self).error_roots@[i] != 0,
        ensures
            *final(self) == (RsDecoder {
                error_locations: final(self).error_locations,
                ..*old(self)
            }),
            final(self).wf(),
            forall|i: int|
                #![trigger final(self).error_locations@[i]]
                0 <= i < num_errors && old(self).code().has_location(old(self).error_roots@[i])
                    ==> final(self).error_locations@[i] == old(self).code().location_of(
                    old(self).error_roots@[i],
                ),
    {
        let ghost start = *self;
        let ghost code = self.code();
        let ghost p = code.modulus;
        let mut i: usize = 0;
        while i < num_errors
            invariant
                i <= num_errors,
                start.wf(),
                self.wf(),
                code == start.code(),
                code == self.code(),
                p == code.modulus,
                num_errors <= code.parity,
                *self == (RsDecoder { error_locations: self.error_locations, ..start }),
                forall|k: int| 0 <= k < num_errors ==> #[trigger] start.error_roots@[k] != 0,
                forall|k: int|
                    #![trigger self.error_locations@[k]]
                    0 <= k < i && code.has_location(start.error_roots@[k])
                        ==> self.error_locations@[k] == code.location_of(start.error_roots@[k]),
            decreases num_errors - i,
        {
            let root: u8 = self.error_roots[i];
            let loc: u8 = self.field.div(1, root);
            proof {
                assert(start.error_roots@[i as int] != 0);
                lemma_inv(p, root);
                lemma_log(p, loc);
                assert(loc == gf_inv(p, root));
            }
            if self.generator_root_gap == 1 {
                // every point is its position's power of alpha
                let at: u8 = if loc == 1 {
                    0
                } else {
                    self.field.log[loc as usize]
                };
                self.error_locations[i] = at;
                proof {
                    assert(alpha_pow(p, 0) == 1);
                    assert(code.gap == 1);
                    assert((code.gap * at) % 255 == at);
                    assert(code.point(at as int) == loc);
                    assert(code.is_location(root, at as int));
                    assert forall|k: int| #[trigger] code.is_location(root, k) implies code.rank(
                        at as int,
                    ) <= code.rank(k) by {
                        lemma_points_distinct(code, at as int, k);
                    }
                    lemma_first_location(code, root, at as int);
                }
            } else {
                let mut j: u16 = 0;
                let mut searching: bool = true;
                while j < 256 && searching
                    invariant
                        j <= 256,
                        i < num_errors,
                        num_errors <= code.parity,
                        start.wf(),
                        self.wf(),
                        code == self.code(),
                        code == start.code(),
                        p == code.modulus,
                        loc != 0,
                        loc == gf_inv(p, root),
                        root == start.error_roots@[i as int],
                        *self == (RsDecoder { error_locations: self.error_locations, ..start }),
                        forall|k: int|
                            #![trigger self.error_locations@[k]]
                            0 <= k < i && code.has_location(start.error_roots@[k])
                                ==> self.error_locations@[k] == code.location_of(
                                start.error_roots@[k],
                            ),
                        searching ==> forall|k: int|
                            0 <= k < j ==> #[trigger] element_power(p, k as u8, code.gap as int)
                                != loc,
                        !searching ==> self.error_locations@[i as int] == code.location_of(root),
                    decreases 256 - j,
                {
                    proof {
                        lemma_log_bound(p, j as u8);
                        let (a, b) = (gf_log(p, j as u8) as int, self.generator_root_gap as int);
                        assert(0 <= a * b <= 0x7fff_ffff) by (nonlinear_arith)
                            requires
                                0 <= a <= 255,
                                0 <= b <= 255,
                        ;
                    }
                    let power: u8 = self.field.pow(
                        j as FieldElement,
                        self.generator_root_gap as i32,
                    );
                    assert(power == element_power(p, j as u8, code.gap as int));
                    if power == loc {
                        let at: u8 = self.field.log[j as usize];
                        proof {
                            if j == 1 {
                                assert(element_power(p, 0u8, code.gap as int) == power) by {
                                    lemma_log(p, 0);
                                    lemma_log(p, 1);
                                    assert((0 * code.gap as int) % 255 == 0);
                                    assert((255 * code.gap as int) % 255 == 0);
                                }
                                assert(element_power(p, (0int) as u8, code.gap as int) == power);
                                assert(false);
                            }
                            lemma_element_location(code, j as u8, loc);
                        }
                        self.error_locations[i] = at;
                        proof {
                            lemma_first_element(code, root, j as u8);
                        }
                        searching = false;
                    }
                    j = j + 1;
                }
                proof {
                    if searching && code.has_location(root) {
                        let k = choose|k: int| code.is_location(root, k);
                        lemma_rank_element(code, k);
                        assert(element_power(p, code.rank(k) as u8, code.gap as int) == loc);
                        assert(false);
                    }
                }
            }
            i = i + 1;
        }
    }

    /// Copies a block into the received polynomial, reversed and padded.
    fn load_block(&mut self, encoded: &[u8])
        requires
            old(self).wf(),
            encoded@.len() <= 255,
        ensures
            *final(self) == (RsDecoder {
                received_polynomial: final(self).received_polynomial,
                ..*old(self)
            }),
            final(self).wf(),
            final(self).received_polynomial@ == received_poly(encoded@),
    {
        let ghost start = *self;
        let len: usize = encoded.len();
        let mut i: usize = 0;
        while i < 255
            invariant
                i <= 255,
                start.wf(),
                len == encoded@.len(),
                *self == (RsDecoder { received_polynomial: self.received_polynomial, ..start }),
                self.received_polynomial@.len() == 255,
                forall|k: int|
                    0 <= k < i ==> #[trigger] self.received_polynomial@[k] == coef(
                        encoded@.reverse(),
                        k,
                    ),
            decreases 255 - i,
        {
            self.received_polynomial[i] = if i < len {
                encoded[len - (i + 1)]
            } else {
                0
            };
            i = i + 1;
        }
        assert(self.received_polynomial@ =~= received_poly(encoded@));
    }

    /// Copies the message part of the received polynomial out.
    fn store_message(&self, encoded_length: usize, msg: &mut [u8])
        requires
            self.wf(),
            self.code().parity <= encoded_length <= 255,
            encoded_length - self.code().parity <= old(msg)@.len(),
        ensures
            final(msg)@.len() == old(msg)@.len(),
            final(msg)@.take(encoded_length - self.code().parity) == message_of(
                self.received_polynomial@,
                encoded_length as int,
                self.code().parity as int,
            ),
            final(msg)@.skip(encoded_length - self.code().parity) == old(msg)@.skip(
                encoded_length - self.code().parity,
            ),
    {
        let msg_length: usize = encoded_length - self.min_distance;
        let ghost before = msg@;
        let mut i: usize = 0;
        while i < msg_length
            invariant
                i <= msg_length <= encoded_length <= 255,
                self.wf(),
                msg_length <= msg@.len(),
                msg@.len() == before.len(),
                forall|k: int|
                    0 <= k < i ==> #[trigger] msg@[k] == self.received_polynomial@[encoded_length
                        - 1 - k],
                forall|k: int| i <= k < msg@.len() ==> #[trigger] msg@[k] == before[k],
            decreases msg_length - i,
        {
            msg[i] = self.received_polynomial[encoded_length - (i + 1)];
            i = i + 1;
        }
        assert(msg@.take(msg_length as int) =~= message_of(
            self.received_polynomial@,
            encoded_length as int,
            self.code().parity as int,
        ));
        assert(msg@.skip(msg_length as int) =~= before.skip(msg_length as int));
    }

    /// Fills the logarithms of the error locator.
    fn take_locator_logs(&mut self)
        requires
            old(self).wf(),
            old(self).error_locator_order <= old(self).code().parity,
        ensures
            *final(self) == (RsDecoder {
                error_locator_log: final(self).error_locator_log,
                error_locator_log_order: final(self).error_locator_log_order,
                ..*old(self)
            }),
            final(self).wf(),
            final(self).error_locator_log_order == old(self).error_locator_order,
            forall|i: int|
                0 <= i <= old(self).error_locator_order ==> #[trigger] final(self).error_locator_log@[i] == gf_log(
                    old(self).code().modulus,
                    old(self).error_locator@[i],
                ),
    {
        let ghost start = *self;
        let order: usize = self.error_locator_order;
        let mut i: usize = 0;
        while i <= order
            invariant
                i <= order + 1,
                order == start.error_locator_order,
                order <= start.code().parity,
                start.wf(),
                *self == (RsDecoder { error_locator_log: self.error_locator_log, ..start }),
                self.error_locator_log@.len() == start.min_distance + 1,
                forall|k: int|
                    0 <= k < i ==> #[trigger] self.error_locator_log@[k] == gf_log(
                        start.code().modulus,
                        start.error_locator@[k],
                    ),
            decreases order + 1 - i,
        {
            self.error_locator_log[i] = self.field.log[self.error_locator[i] as usize];
            i = i + 1;
        }
        self.error_locator_log_order = order;
    }

    /// Every root has its location and its error value.
    spec fn located(self) -> bool {
        let order = self.error_locator_order;
        forall|i: int|
            0 <= i < order ==> {
                &&& #[trigger] self.error_locations@[i] == self.code().location_of(
                    self.error_roots@[i],
                )
                &&& self.error_vals@[i] == self.code().error_value(
                    self.syndromes@,
                    self.error_locator@.take(order + 1),
                    self.error_roots@[i],
                )
            }
    }

    /// Takes the error at each location out of the received polynomial.
    fn correct_received(&mut self)
        requires
            old(self).wf(),
            old(self).error_locator_order <= old(self).code().parity,
        ensures
            *final(self) == (RsDecoder {
                received_polynomial: final(self).received_polynomial,
                ..*old(self)
            }),
            final(self).wf(),
            old(self).located() ==> final(self).received_polynomial@ == old(self).code().corrected(
                old(self).syndromes@,
                old(self).error_locator@.take(old(self).error_locator_order + 1),
                old(self).error_roots@.take(old(self).error_locator_order as int),
                old(self).received_polynomial@,
            ),
    {
        let ghost start = *self;
        let ghost code = self.code();
        let order: usize = self.error_locator_order;
        let ghost locator = self.error_locator@.take(order + 1);
        let ghost roots = self.error_roots@.take(order as int);
        let mut i: usize = 0;
        assert(roots.take(0) =~= Seq::<u8>::empty());
        while i < order
            invariant
                i <= order,
                start.wf(),
                code == start.code(),
                order <= code.parity,
                order == start.error_locator_order,
                roots == start.error_roots@.take(order as int),
                *self == (RsDecoder { received_polynomial: self.received_polynomial, ..start }),
                self.received_polynomial@.len() == 255,
                locator == start.error_locator@.take(order + 1),
                start.located() ==> self.received_polynomial@ == code.corrected(
                    start.syndromes@,
                    locator,
                    roots.take(i as int),
                    start.received_polynomial@,
                ),
            decreases order - i,
        {
            let loc: usize = self.error_locations[i] as usize;
            let fixed: u8 = self.field.sub(self.received_polynomial[loc], self.error_vals[i]);
            self.received_polynomial[loc] = fixed;
            proof {
                let longer = roots.take(i + 1);
                assert(longer.drop_last() =~= roots.take(i as int));
                assert(start.error_locations@[i as int] < 255);
            }
            i = i + 1;
        }
        assert(roots.take(order as int) =~= roots);
    }

    /// Everything after the locator is known: locations, values, correction.
    fn apply_locator(&mut self)
        requires
            old(self).wf(),
            1 <= old(self).error_locator_order <= old(self).code().parity,
            forall|i: int|
                0 <= i < old(self).error_locator_order ==> #[trigger] old(self).error_roots@[i]
                    != 0,
        ensures
            final(self).wf(),
            final(self).code() == old(self).code(),
            final(self).error_locator == old(self).error_locator,
            final(self).combined_locator == old(self).combined_locator,
            final(self).error_locator_order == old(self).error_locator_order,
            (forall|i: int|
                0 <= i < old(self).error_locator_order ==> old(self).code().has_location(
                    #[trigger] old(self).error_roots@[i],
                )) ==> final(self).received_polynomial@ == old(self).code().corrected(
                old(self).syndromes@,
                old(self).error_locator@.take(old(self).error_locator_order + 1),
                old(self).error_roots@.take(old(self).error_locator_order as int),
                old(self).received_polynomial@,
            ),
    {
        let ghost start = *self;
        self.find_error_locations(self.error_locator_order);
        self.find_error_values();
        assert((forall|i: int|
            0 <= i < start.error_locator_order ==> start.code().has_location(
                #[trigger] start.error_roots@[i],
            )) ==> self.located());
        self.correct_received();
    }

    /// Decodes a received block, correcting up to `num_roots / 2` byte errors,
    /// and writes the recovered message to `msg`, which must be long enough to
    /// hold it. Returns the number of symbols corrected, 0 if the block was
    /// already clean.
    ///
    /// The count is the number of corrections that the decoder believes it made:
    /// a block with more errors than the code can correct may decode to a wrong
    /// codeword. That is unlikely, and the count cannot detect it.
    pub fn decode(&mut self, encoded: &[u8], msg: &mut [u8]) -> (res: Result<usize, DecodeError>)
        requires
            old(self).wf(),
            encoded@.len() <= 255 ==> {
                &&& old(self).code().parity <= encoded@.len()
                &&& encoded@.len() - old(self).code().parity <= old(msg)@.len()
            },
        ensures
            final(self).wf(),
            final(self).code() == old(self).code(),
            final(msg)@.len() == old(msg)@.len(),
            encoded@.len() > 255 ==> {
                &&& res == Err::<usize, DecodeError>(DecodeError::BlockTooLong)
                &&& final(msg)@ == old(msg)@
            },
            encoded@.len() <= 255 ==> decode_result(
                old(self).code(),
                encoded@,
                Seq::<u8>::empty(),
                old(msg)@,
                final(msg)@,
                res,
            ),
    {
        let encoded_length: usize = encoded.len();
        if encoded_length > self.block_length {
            return Err(DecodeError::BlockTooLong);
        }
        let ghost code = self.code();
        let ghost erased = code.erasure_roots(encoded_length as int, Seq::<u8>::empty());
        self.load_block(encoded);
        let all_zero: bool = self.find_syndromes();
        let ghost s = self.syndromes@;
        proof {
            assert forall|i: int| 0 <= i < code.parity implies #[trigger] s[i]
                == code.syndromes(encoded@)[i] by {
                lemma_received_eval(code, encoded@, i);
            }
            assert(s =~= code.syndromes(encoded@));
            assert(erased =~= Seq::<u8>::empty());
        }
        if all_zero {
            // nothing to correct
            self.store_message(encoded_length, msg);
            return Ok(0);
        }
        let order: usize = self.find_error_locator(0);
        proof {
            assert(s.take(code.parity as int) =~= s);
            lemma_massey_shape(code.modulus, s, code.parity, code.parity);
        }
        let ghost c = code.error_locator(s, erased);
        assert(c == self.error_locator@.take(order + 1));
        self.take_locator_logs();
        if !self.factorize_error_locator(0) {
            // the locator does not have enough roots
            return Err(DecodeError::TooManyErrors);
        }
        proof {
            lemma_roots_below_bound(code.modulus, c, 256);
            let found = roots_below(code.modulus, c, 256);
            assert(self.error_roots@.take(order as int) =~= found);
            assert(erased + found =~= found);
            assert forall|i: int| 0 <= i < order implies #[trigger] self.error_roots@[i] != 0 by {
                assert(found[i] != 0);
            }
            if order == 0 {
                lemma_no_errors(code, s);
            }
            if code.all_located(encoded@, Seq::<u8>::empty()) {
                assert forall|i: int| 0 <= i < order implies code.has_location(
                    #[trigger] self.error_roots@[i],
                ) by {
                    assert(found[i] == self.error_roots@[i]);
                }
            }
        }
        self.apply_locator();
        self.store_message(encoded_length, msg);
        Ok(order)
    }

    /// The inverse of finding locations: the locator's root for each of the
    /// first `num_errors` locations.
    fn find_error_roots_from_locations(&mut self, num_errors: usize)
        requires
            old(self).wf(),
            num_errors <= old(self).code().parity,
        ensures
            *final(self) == (RsDecoder { error_roots: final(self).error_roots, ..*old(self) }),
            final(self).wf(),
            forall|i: int|
                0 <= i < num_errors ==> #[trigger] final(self).error_roots@[i] == gf_inv(
                    old(self).code().modulus,
                    old(self).code().point(old(self).error_locations@[i] as int),
                ),
    {
        let ghost start = *self;
        let ghost code = self.code();
        let ghost p = code.modulus;
        let mut i: usize = 0;
        while i < num_errors
            invariant
                i <= num_errors,
                start.wf(),
                code == start.code(),
                p == code.modulus,
                num_errors <= code.parity,
                *self == (RsDecoder { error_roots: self.error_roots, ..start }),
                self.error_roots@.len() == 2 * start.min_distance,
                forall|k: int|
                    0 <= k < i ==> #[trigger] self.error_roots@[k] == gf_inv(
                        p,
                        code.point(start.error_locations@[k] as int),
                    ),
            decreases num_errors - i,
        {
            let at: u8 = self.error_locations[i];
            let element: u8 = self.field.exp[at as usize];
            proof {
                assert(start.error_locations@[i as int] < 255);
                lemma_log_bound(p, element);
                let (a, b) = (gf_log(p, element) as int, self.generator_root_gap as int);
                assert(0 <= a * b <= 0x7fff_ffff) by (nonlinear_arith)
                    requires
                        0 <= a <= 255,
                        0 <= b <= 255,
                ;
                lemma_location_element(code, at as int);
            }
            let loc: u8 = self.field.pow(element, self.generator_root_gap as i32);
            self.error_roots[i] = self.field.div(1, loc);
            i = i + 1;
        }
    }

    /// Multiplies out the erasures' factors.
    fn find_error_locator_from_roots(&mut self, num_errors: usize)
        requires
            old(self).wf(),
            1 <= num_errors <= old(self).code().parity,
        ensures
            *final(self) == (RsDecoder {
                erasure_locator: final(self).erasure_locator,
                erasure_locator_order: final(self).erasure_locator_order,
                init_from_roots_scratch0: final(self).init_from_roots_scratch0,
                init_from_roots_scratch1: final(self).init_from_roots_scratch1,
                ..*old(self)
            }),
            final(self).wf(),
            final(self).erasure_locator_order == num_errors,
            final(self).erasure_locator@.take(num_errors + 1) == roots_poly(
                old(self).code().modulus,
                old(self).error_roots@.take(num_errors as int),
            ),
    {
        polynomial_init_from_roots(
            &self.field,
            num_errors,
            &self.error_roots,
            &mut self.erasure_locator,
            &mut self.init_from_roots_scratch0,
            &mut self.init_from_roots_scratch1,
        );
        self.erasure_locator_order = num_errors;
    }

    /// Multiplies the syndromes by the erasure locator.
    fn find_modified_syndromes(&mut self)
        requires
            old(self).wf(),
            old(self).erasure_locator_order <= old(self).code().parity,
        ensures
            *final(self) == (RsDecoder {
                modified_syndromes: final(self).modified_syndromes,
                ..*old(self)
            }),
            final(self).wf(),
            forall|k: int|
                0 <= k < old(self).code().parity ==> #[trigger] final(self).modified_syndromes@[k]
                    == conv(
                    old(self).code().modulus,
                    old(self).erasure_locator@.take(old(self).erasure_locator_order + 1),
                    old(self).syndromes@,
                    k,
                ),
    {
        let syndrome_poly = Polynomial::new(&self.syndromes, self.min_distance - 1);
        let error_locator = Polynomial::new(&self.erasure_locator, self.erasure_locator_order);
        assert(syndrome_poly.coeffs() =~= self.syndromes@);
        polynomial_mul(
            &self.field,
            &error_locator,
            &syndrome_poly,
            &mut self.modified_syndromes,
            self.min_distance - 1,
        );
    }

    /// Saves the syndromes and puts the modified ones, from index `skip` on, in
    /// their place.
    fn swap_in_modified_syndromes(&mut self, skip: usize)
        requires
            old(self).wf(),
            skip <= old(self).code().parity,
        ensures
            *final(self) == (RsDecoder {
                syndromes: final(self).syndromes,
                syndrome_copy: final(self).syndrome_copy,
                ..*old(self)
            }),
            final(self).wf(),
            final(self).syndrome_copy@ == old(self).syndromes@,
            forall|i: int|
                0 <= i < old(self).code().parity - skip ==> #[trigger] final(self).syndromes@[i]
                    == old(self).modified_syndromes@[skip + i],
    {
        let ghost start = *self;
        let n: usize = self.min_distance;
        let mut i: usize = 0;
        while i < n
            invariant
                i <= n,
                n == start.min_distance,
                start.wf(),
                skip <= n,
                *self == (RsDecoder {
                    syndromes: self.syndromes,
                    syndrome_copy: self.syndrome_copy,
                    ..start
                }),
                self.syndromes@.len() == n,
                self.syndrome_copy@.len() == n,
                forall|k: int|
                    0 <= k < i ==> #[trigger] self.syndrome_copy@[k] == start.syndromes@[k],
                forall|k: int|
                    i <= k < n ==> #[trigger] self.syndromes@[k] == start.syndromes@[k],
                forall|k: int|
                    0 <= k < i && k < n - skip ==> #[trigger] self.syndromes@[k]
                        == start.modified_syndromes@[skip + k],
            decreases n - i,
        {
            self.syndrome_copy[i] = self.syndromes[i];
            if i < n - skip {
                self.syndromes[i] = self.modified_syndromes[skip + i];
            }
            i = i + 1;
        }
        assert(self.syndrome_copy@ =~= start.syndromes@);
    }

    /// Puts the saved syndromes back.
    fn restore_syndromes(&mut self)
        requires
            old(self).wf(),
        ensures
            *final(self) == (RsDecoder { syndromes: final(self).syndromes, ..*old(self) }),
            final(self).wf(),
            final(self).syndromes@ == old(self).syndrome_copy@,
    {
        let ghost start = *self;
        let n: usize = self.min_distance;
        let mut i: usize = 0;
        while i < n
            invariant
                i <= n,
                n == start.min_distance,
                start.wf(),
                *self == (RsDecoder { syndromes: self.syndromes, ..start }),
                self.syndromes@.len() == n,
                forall|k: int|
                    0 <= k < i ==> #[trigger] self.syndromes@[k] == start.syndrome_copy@[k],
            decreases n - i,
        {
            self.syndromes[i] = self.syndrome_copy[i];
            i = i + 1;
        }
        assert(self.syndromes@ =~= start.syndrome_copy@);
    }

    /// Puts the product of erasure and error locator in the place of the error
    /// locator, which waits in the scratch buffer.
    fn multiply_locators(&mut self, order: usize, total: usize)
        requires
            old(self).wf(),
            order + old(self).erasure_locator_order == total,
            total <= old(self).code().parity,
        ensures
            *final(self) == (RsDecoder {
                error_locator: final(self).error_locator,
                error_locator_order: total,
                combined_locator: final(self).combined_locator,
                ..*old(self)
            }),
            final(self).wf(),
            final(self).combined_locator == old(self).error_locator,
            final(self).error_locator@.take(total + 1) == poly_mul(
                old(self).code().modulus,
                old(self).erasure_locator@.take(old(self).erasure_locator_order + 1),
                old(self).error_locator@.take(order + 1),
            ),
    {
        let ghost start = *self;
        core::mem::swap(&mut self.error_locator, &mut self.combined_locator);
        let erasure = Polynomial::new(&self.erasure_locator, self.erasure_locator_order);
        let error = Polynomial::new(&self.combined_locator, order);
        polynomial_mul(&self.field, &erasure, &error, &mut self.error_locator, total);
        self.error_locator_order = total;
        assert(self.error_locator@.take(total + 1) =~= poly_mul(
            start.code().modulus,
            start.erasure_locator@.take(start.erasure_locator_order + 1),
            start.error_locator@.take(order + 1),
        ));
    }

    /// Remaps erased positions of the block to coefficients.
    fn load_erasures(&mut self, erasure_locations: &[u8], encoded_length: usize)
        requires
            old(self).wf(),
            erasure_locations@.len() <= old(self).code().parity,
            encoded_length <= 255,
            forall|i: int|
                0 <= i < erasure_locations@.len() ==> #[trigger] erasure_locations@[i]
                    < encoded_length,
        ensures
            *final(self) == (RsDecoder {
                error_locations: final(self).error_locations,
                ..*old(self)
            }),
            final(self).wf(),
            forall|i: int|
                0 <= i < erasure_locations@.len() ==> #[trigger] final(self).error_locations@[i]
                    == encoded_length - 1 - erasure_locations@[i],
    {
        let ghost start = *self;
        let mut i: usize = 0;
        while i < erasure_locations.len()
            invariant
                i <= erasure_locations@.len() <= start.code().parity,
                start.wf(),
                self.wf(),
                encoded_length <= 255,
                forall|k: int|
                    0 <= k < erasure_locations@.len() ==> #[trigger] erasure_locations@[k]
                        < encoded_length,
                *self == (RsDecoder { error_locations: self.error_locations, ..start }),
                forall|k: int|
                    0 <= k < i ==> #[trigger] self.error_locations@[k] == encoded_length - 1
                        - erasure_locations@[k],
            decreases erasure_locations@.len() - i,
        {
            assert(erasure_locations@[i as int] < encoded_length);
            let at: usize = encoded_length - 1 - erasure_locations[i] as usize;
            self.error_locations[i] = at as FieldLogarithm;
            i = i + 1;
        }
    }

    /// Decodes a received block of which some positions are already suspected to
    /// be corrupted (the erasures), typically flagged by the receiving device.
    /// `erasure_locations` indexes into the emitted block and should not exceed
    /// `num_roots` entries.
    ///
    /// Each erasure costs one parity symbol instead of two, so erasure
    /// information lets the decoder recover more corruption: decoding succeeds
    /// as long as `num_erasures + 2 * num_errors` does not exceed `num_roots`.
    ///
    /// Returns the number of symbols corrected, errors and erasures together.
    /// The caveat on miscorrection of [`RsDecoder::decode`] applies.
    #[verifier::rlimit(40)]
    pub fn decode_with_erasures(
        &mut self,
        encoded: &[u8],
        erasure_locations: &[u8],
        msg: &mut [u8],
    ) -> (res: Result<usize, DecodeError>)
        requires
            old(self).wf(),
            encoded@.len() <= 255 && erasure_locations@.len() <= old(self).code().parity ==> {
                &&& old(self).code().parity <= encoded@.len()
                &&& encoded@.len() - old(self).code().parity <= old(msg)@.len()
                &&& forall|i: int|
                    0 <= i < erasure_locations@.len() ==> #[trigger] erasure_locations@[i]
                        < encoded@.len()
            },
        ensures
            final(self).wf(),
            final(self).code() == old(self).code(),
            final(msg)@.len() == old(msg)@.len(),
            encoded@.len() > 255 ==> {
                &&& res == Err::<usize, DecodeError>(DecodeError::BlockTooLong)
                &&& final(msg)@ == old(msg)@
            },
            encoded@.len() <= 255 && erasure_locations@.len() > old(self).code().parity ==> {
                &&& res == Err::<usize, DecodeError>(DecodeError::TooManyErasures)
                &&& final(msg)@ == old(msg)@
            },
            encoded@.len() <= 255 && erasure_locations@.len() <= old(self).code().parity
                ==> decode_result(
                old(self).code(),
                encoded@,
                erasure_locations@,
                old(msg)@,
                final(msg)@,
                res,
            ),
    {
        let erasure_length: usize = erasure_locations.len();
        if erasure_length == 0 {
            assert(erasure_locations@ =~= Seq::<u8>::empty());
            return self.decode(encoded, msg);
        }
        let encoded_length: usize = encoded.len();
        if encoded_length > self.block_length {
            return Err(DecodeError::BlockTooLong);
        }
        if erasure_length > self.min_distance {
            return Err(DecodeError::TooManyErasures);
        }
        let ghost code = self.code();
        let ghost p = code.modulus;
        let ghost erased = code.erasure_roots(encoded_length as int, erasure_locations@);
        self.load_block(encoded);
        self.load_erasures(erasure_locations, encoded_length);
        self.find_error_roots_from_locations(erasure_length);
        assert(self.error_roots@.take(erasure_length as int) =~= erased);
        self.find_error_locator_from_roots(erasure_length);
        let all_zero: bool = self.find_syndromes();
        let ghost s = self.syndromes@;
        proof {
            assert forall|i: int| 0 <= i < code.parity implies #[trigger] s[i]
                == code.syndromes(encoded@)[i] by {
                lemma_received_eval(code, encoded@, i);
            }
            assert(s =~= code.syndromes(encoded@));
        }
        if all_zero {
            self.store_message(encoded_length, msg);
            return Ok(0);
        }
        self.find_modified_syndromes();
        self.swap_in_modified_syndromes(erasure_length);
        let ghost ts = code.error_syndromes(s, erased);
        assert(self.syndromes@.take(code.parity - erasure_length) =~= ts);

        let order: usize = self.find_error_locator(erasure_length);
        proof {
            lemma_massey_shape(p, ts, code.parity, ts.len());
        }
        let ghost c = code.error_locator(s, erased);
        assert(c == self.error_locator@.take(order + 1));
        self.take_locator_logs();
        if !self.factorize_error_locator(erasure_length) {
            return Err(DecodeError::TooManyErrors);
        }
        let ghost found = roots_below(p, c, 256);
        let total: usize = order + erasure_length;
        proof {
            lemma_roots_below_bound(p, c, 256);
            assert(self.error_roots@.take(erasure_length as int) =~= erased);
            let all = self.error_roots@.take(total as int);
            assert forall|i: int| erasure_length <= i < total implies #[trigger] all[i] == found[i
                - erasure_length] by {
                assert(self.error_roots@.subrange(
                    erasure_length as int,
                    erasure_length + found.len(),
                )[i - erasure_length] == found[i - erasure_length]);
            }
            assert forall|i: int| 0 <= i < erasure_length implies #[trigger] all[i]
                == erased[i] by {
                assert(self.error_roots@.take(erasure_length as int)[i] == erased[i]);
            }
            assert(all =~= erased + found);
            assert forall|i: int| 0 <= i < total implies #[trigger] self.error_roots@[i] != 0 by {
                assert(all[i] == self.error_roots@[i]);
                if i < erasure_length {
                    lemma_point_nonzero(code, encoded_length - 1 - erasure_locations@[i]);
                    lemma_inv(p, code.point(encoded_length - 1 - erasure_locations@[i]));
                } else {
                    assert(found[i - erasure_length] != 0);
                }
            }
            if code.all_located(encoded@, erasure_locations@) {
                assert forall|i: int| 0 <= i < total implies code.has_location(
                    #[trigger] self.error_roots@[i],
                ) by {
                    assert(all[i] == self.error_roots@[i]);
                    if i < erasure_length {
                        let k = encoded_length - 1 - erasure_locations@[i];
                        lemma_point_nonzero(code, k);
                        lemma_inv(p, code.point(k));
                        assert(code.is_location(self.error_roots@[i], k));
                    } else {
                        assert(code.has_location(found[i - erasure_length]));
                    }
                }
            }
        }

        self.multiply_locators(order, total);
        assert(self.error_locator@.take(total + 1) == code.full_locator(s, erased));
        self.restore_syndromes();
        self.apply_locator();
        core::mem::swap(&mut self.error_locator, &mut self.combined_locator);
        self.error_locator_order = order;
        self.store_message(encoded_length, msg);
        Ok(total)
    }

    /// Builds a decoder for the standard CCSDS (255,223) code in the
    /// conventional basis. For the dual basis used on the wire, see
    /// [`RsDecoder::decode_ccsds_dual`].
    pub fn new_ccsds() -> (decoder: RsDecoder)
        ensures
            decoder.wf(),
            decoder.code() == Code::ccsds(),
    {
        RsDecoder::new(
            ccsds::CCSDS_PRIMITIVE_POLYNOMIAL,
            ccsds::CCSDS_FIRST_CONSECUTIVE_ROOT,
            ccsds::CCSDS_GENERATOR_ROOT_GAP,
            ccsds::CCSDS_NUM_ROOTS,
        )
    }

    /// Decodes a block of dual-basis symbols, message followed by parity as on
    /// the wire, and writes the recovered message, in the dual basis, to `msg`.
    /// The block is transformed to the conventional basis, decoded, and the
    /// message transformed back. Returns the number of symbols corrected.
    pub fn decode_ccsds_dual(&mut self, encoded: &[u8], msg: &mut [u8]) -> (res: Result<
        usize,
        DecodeError,
    >)
        requires
            old(self).wf(),
            encoded@.len() <= 255 ==> {
                &&& old(self).code().parity <= encoded@.len()
                &&& encoded@.len() - old(self).code().parity <= old(msg)@.len()
            },
        ensures
            final(self).wf(),
            final(self).code() == old(self).code(),
            final(msg)@.len() == old(msg)@.len(),
            encoded@.len() > 255 ==> {
                &&& res == Err::<usize, DecodeError>(DecodeError::BlockTooLong)
                &&& final(msg)@ == old(msg)@
            },
            encoded@.len() <= 255 ==> exists|conv_msg: Seq<u8>|
                #![trigger decode_result(
                    old(self).code(),
                    seq_to_conv(encoded@),
                    Seq::<u8>::empty(),
                    old(msg)@,
                    conv_msg,
                    res,
                )]
                {
                    let len = encoded@.len() - old(self).code().parity;
                    &&& decode_result(
                        old(self).code(),
                        seq_to_conv(encoded@),
                        Seq::<u8>::empty(),
                        old(msg)@,
                        conv_msg,
                        res,
                    )
                    &&& res is Ok ==> final(msg)@ == seq_to_dual(conv_msg.take(len))
                        + conv_msg.skip(len)
                    &&& res is Err ==> final(msg)@ == conv_msg
                },
    {
        let conv_block: Vec<u8> = ccsds::dual_to_conv_all(encoded);
        let ghost before = msg@;
        let corrected: usize = match self.decode(&conv_block, msg) {
            Ok(n) => n,
            Err(e) => {
                return Err(e);
            },
        };
        let ghost conv_msg = msg@;
        let msg_length: usize = encoded.len() - self.min_distance;
        let mut i: usize = 0;
        while i < msg_length
            invariant
                i <= msg_length <= msg@.len(),
                msg@.len() == conv_msg.len(),
                forall|k: int| 0 <= k < i ==> #[trigger] msg@[k] == to_dual(conv_msg[k]),
                forall|k: int| i <= k < msg@.len() ==> #[trigger] msg@[k] == conv_msg[k],
            decreases msg_length - i,
        {
            msg[i] = ccsds::conv_to_dual(msg[i]);
            i = i + 1;
        }
        assert(msg@ =~= seq_to_dual(conv_msg.take(msg_length as int)) + conv_msg.skip(
            msg_length as int,
        ));
        Ok(corrected)
    }
}

/// What a decode of a block of admissible length returns and writes. The message
/// is settled unless an error that was found lies at no position, which takes a
/// gap that shares a factor with 255: then it also rests on what the decoder
/// located last.
pub open spec fn decode_result(
    code: Code,
    block: Seq<u8>,
    erasures: Seq<u8>,
    before: Seq<u8>,
    after: Seq<u8>,
    res: Result<usize, DecodeError>,
) -> bool {
    let len = block.len() - code.parity;
    match code.decode(block, erasures) {
        None => {
            &&& res == Err::<usize, DecodeError>(DecodeError::TooManyErrors)
            &&& after == before
        },
        Some((count, poly)) => {
            &&& res matches Ok(n) && n == count
            &&& code.all_located(block, erasures) || count == 0 ==> after.take(len) == message_of(
                poly,
                block.len() as int,
                code.parity as int,
            )
            &&& after.skip(len) == before.skip(len)
        },
    }
}

/// A locator of length 0 means that there is nothing to locate.
pub proof fn lemma_no_errors(code: Code, s: Seq<u8>)
    requires
        code.valid(),
        s.len() == code.parity,
        massey(code.modulus, s, code.parity, code.parity).length == 0,
    ensures
        forall|i: int| 0 <= i < code.parity ==> #[trigger] s[i] == 0,
{
    assert forall|i: int| 0 <= i < code.parity implies #[trigger] s[i] == 0 by {
        lemma_length_grows(code.modulus, s, code.parity, (i + 1) as nat, code.parity);
        lemma_length_grows(code.modulus, s, code.parity, i as nat, code.parity);
        let st = massey(code.modulus, s, code.parity, i as nat);
        lemma_massey_shape(code.modulus, s, code.parity, i as nat);
        assert(gf_sum(0, |j: int| gf_mul(code.modulus, st.locator[j + 1], s[i - (j + 1)])) == 0);
        lemma_xor(s[i], 0, 0);
    }
}

/// The length never shrinks.
proof fn lemma_length_grows(p: u16, s: Seq<u8>, n: nat, i: nat, j: nat)
    requires
        i <= j,
    ensures
        massey(p, s, n, i).length <= massey(p, s, n, j).length,
    decreases j - i,
{
    if i < j {
        lemma_length_grows(p, s, n, i, (j - 1) as nat);
    }
}

/// An element whose power is the reciprocal of a root has the root's position
/// for its logarithm.
proof fn lemma_element_location(code: Code, j: u8, loc: u8)
    requires
        code.valid(),
        element_power(code.modulus, j, code.gap as int) == loc,
        j != 1,
    ensures
        gf_log(code.modulus, j) < 255,
        code.point(gf_log(code.modulus, j) as int) == loc,
{
    lemma_log(code.modulus, j);
    let k = gf_log(code.modulus, j);
    assert(k * (code.gap as int) == code.gap * (k as int)) by (nonlinear_arith);
}

/// The power of alpha that belongs to a position, raised to the gap, is the
/// position's point.
proof fn lemma_location_element(code: Code, k: int)
    requires
        code.valid(),
        0 <= k < 255,
    ensures
        element_power(code.modulus, alpha_pow(code.modulus, k as nat), code.gap as int)
            == code.point(k),
{
    let p = code.modulus;
    let e = alpha_pow(p, k as nat);
    super::galois::lemma_alpha_nonzero(p, k as nat);
    lemma_log(p, e);
    let l = gf_log(p, e);
    lemma_alpha_distinct(p, l, k as nat);
    if l != k {
        assert(l == 255 && k == 0);
        assert((255 * code.gap as int) % 255 == 0);
        assert(code.gap * 0 == 0);
    } else {
        assert(l * (code.gap as int) == code.gap * k) by (nonlinear_arith)
            requires
                l == k,
        ;
    }
}

/// The element that is tried for a position, raised to the gap, is the position's
/// point.
proof fn lemma_rank_element(code: Code, k: int)
    requires
        code.valid(),
        0 <= k < 255,
    ensures
        0 <= code.rank(k) < 256,
        element_power(code.modulus, code.rank(k) as u8, code.gap as int) == code.point(k),
{
    if k == 0 {
        lemma_log(code.modulus, 0);
        assert((0 * code.gap as int) % 255 == 0);
        assert((code.gap * k) % 255 == 0);
    } else {
        lemma_location_element(code, k);
    }
}

/// The first element that leads to a root's reciprocal gives the root's location.
proof fn lemma_first_element(code: Code, root: u8, j: u8)
    requires
        code.valid(),
        j != 1,
        element_power(code.modulus, j, code.gap as int) == gf_inv(code.modulus, root),
        forall|k: int|
            0 <= k < j ==> #[trigger] element_power(code.modulus, k as u8, code.gap as int)
                != gf_inv(code.modulus, root),
    ensures
        code.location_of(root) == gf_log(code.modulus, j),
{
    let at = gf_log(code.modulus, j) as int;
    lemma_element_location(code, j, gf_inv(code.modulus, root));
    lemma_log(code.modulus, j);
    assert(code.is_location(root, at));
    assert(code.rank(at) == j);
    assert forall|k: int| #[trigger] code.is_location(root, k) implies code.rank(at) <= code.rank(
        k,
    ) by {
        lemma_rank_element(code, k);
    }
    lemma_first_location(code, root, at);
}

} // verus!
