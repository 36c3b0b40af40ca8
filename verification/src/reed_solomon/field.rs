//! Arithmetic in GF(2^8) by table lookup.
//!
//! The field is represented by a pair of tables: `exp[i]` is alpha^i for
//! successive powers of the primitive element alpha, and `log` is the inverse
//! mapping.

use super::galois::{alpha_pow, gf_div, gf_log, gf_mul, is_degree_eight, last_log, lemma_xor, mul_x};
use vstd::prelude::*;

verus! {

/// An element of GF(2^8).
pub type FieldElement = u8;

/// A power of the primitive element alpha.
pub type FieldLogarithm = u8;

/// Headroom for arithmetic on elements and logarithms.
pub type FieldOperation = u16;

/// The lookup tables of one field.
#[derive(Clone, Copy, Debug)]
pub struct Field {
    /// alpha^i, run out to twice the order so that sums of two logarithms need
    /// no reduction.
    pub exp: [FieldElement; 512],
    /// The logarithm of each element. The entry for 0 is 0, and the entry for 1
    /// is 255.
    pub log: [FieldLogarithm; 256],
}

/// Exclusive-or of `n` copies of `elem`.
pub open spec fn repeated_sum(elem: u8, n: nat) -> u8
    decreases n,
{
    if n == 0 {
        0
    } else {
        repeated_sum(elem, (n - 1) as nat) ^ elem
    }
}

/// An even number of copies cancels; an odd number leaves one.
pub proof fn lemma_repeated_sum(elem: u8, n: nat)
    ensures
        repeated_sum(elem, n) == if n % 2 == 1 {
            elem
        } else {
            0
        },
    decreases n,
{
    lemma_xor(elem, elem, elem);
    if n > 0 {
        lemma_repeated_sum(elem, (n - 1) as nat);
    }
}

/// The product of two logarithms, kept in `0..=255`.
pub open spec fn log_sum(l: int, r: int) -> int {
    if l + r > 255 {
        l + r - 255
    } else {
        l + r
    }
}

/// Doubling an element and reducing it is multiplication by alpha.
pub proof fn lemma_double(p: u16, e: u16)
    requires
        is_degree_eight(p),
        e < 256,
    ensures
        e * 2 > 255 ==> ((e * 2) as u16 ^ p) < 256 && ((e * 2) as u16 ^ p) as u8 == mul_x(
            p,
            e as u8,
        ),
        e * 2 <= 255 ==> (e * 2) as u8 == mul_x(p, e as u8),
{
    assert(((e * 2) as u16 > 255 ==> ((e * 2) as u16 ^ p) < 256 && ((e * 2) as u16 ^ p) as u8
        == mul_x(p, e as u8)) && ((e * 2) as u16 <= 255 ==> (e * 2) as u8 == mul_x(p, e as u8)))
        by (bit_vector)
        requires
            0x100 <= p,
            p < 0x200,
            e < 256,
    ;
}

/// alpha^8 is the modulus without its leading term.
pub proof fn lemma_alpha_eight(p: u16)
    requires
        is_degree_eight(p),
    ensures
        alpha_pow(p, 8) == (p - 0x100) as u8,
{
    assert(mul_x(p, 1) == 2 && mul_x(p, 2) == 4 && mul_x(p, 4) == 8 && mul_x(p, 8) == 16 && mul_x(
        p,
        16,
    ) == 32 && mul_x(p, 32) == 64 && mul_x(p, 64) == 128 && mul_x(p, 128) == (p - 0x100) as u8)
        by (bit_vector)
        requires
            0x100 <= p,
            p < 0x200,
    ;
    reveal_with_fuel(super::galois::shift_pow, 9);
}

impl Field {
    /// The degree-eight polynomial that the field is built from, which the
    /// table holds as alpha^8.
    pub open spec fn modulus(self) -> u16 {
        (0x100 + self.exp@[8]) as u16
    }

    /// Both tables hold what they should.
    pub open spec fn wf(self) -> bool {
        &&& forall|i: int| 0 <= i < 512 ==> #[trigger] self.exp@[i] == alpha_pow(
            self.modulus(),
            i as nat,
        )
        &&& forall|e: int|
            0 <= e < 256 ==> #[trigger] self.log@[e] == gf_log(self.modulus(), e as u8)
    }

    /// Builds the tables of the field modulo `primitive_poly`.
    pub fn new(primitive_poly: FieldOperation) -> (field: Field)
        requires
            is_degree_eight(primitive_poly),
        ensures
            field.wf(),
            field.modulus() == primitive_poly,
    {
        let mut exp: [FieldElement; 512] = [0u8; 512];
        let mut log: [FieldLogarithm; 256] = [0u8; 256];

        let mut element: FieldOperation = 1;
        exp[0] = 1;
        let mut i: FieldOperation = 1;
        while i < 512
            invariant
                1 <= i <= 512,
                element < 256,
                is_degree_eight(primitive_poly),
                element as u8 == alpha_pow(primitive_poly, (i - 1) as nat),
                forall|j: int| 0 <= j < i ==> #[trigger] exp@[j] == alpha_pow(
                    primitive_poly,
                    j as nat,
                ),
                forall|e: int|
                    0 <= e < 256 ==> #[trigger] log@[e] == last_log(
                        primitive_poly,
                        e as u8,
                        (if i <= 256 {
                            i - 1
                        } else {
                            255
                        }) as nat,
                    ),
            decreases 512 - i,
        {
            proof {
                lemma_double(primitive_poly, element);
                assert(alpha_pow(primitive_poly, i as nat) == mul_x(
                    primitive_poly,
                    alpha_pow(primitive_poly, (i - 1) as nat),
                ));
            }
            element = element * 2;
            if element > 255 {
                element = element ^ primitive_poly;
            }
            exp[i as usize] = element as FieldElement;
            if i < 256 {
                log[element as usize] = i as FieldLogarithm;
            }
            i = i + 1;
        }
        let field = Field { exp, log };
        proof {
            lemma_alpha_eight(primitive_poly);
        }
        field
    }

    /// Addition, which is exclusive-or.
    pub fn add(&self, l: FieldElement, r: FieldElement) -> (res: FieldElement)
        ensures
            res == l ^ r,
    {
        l ^ r
    }

    /// Subtraction, which is the same as addition.
    pub fn sub(&self, l: FieldElement, r: FieldElement) -> (res: FieldElement)
        ensures
            res == l ^ r,
    {
        l ^ r
    }

    /// The sum of `n` copies of `elem`: an even number of them cancels.
    pub fn sum(&self, elem: FieldElement, n: u32) -> (res: FieldElement)
        ensures
            res == repeated_sum(elem, n as nat),
    {
        proof {
            lemma_repeated_sum(elem, n as nat);
        }
        if !n.is_multiple_of(2) {
            elem
        } else {
            0
        }
    }

    /// Multiplies two elements by adding their logarithms.
    pub fn mul(&self, l: FieldElement, r: FieldElement) -> (res: FieldElement)
        requires
            self.wf(),
        ensures
            res == gf_mul(self.modulus(), l, r),
    {
        reveal(gf_mul);
        if l == 0 || r == 0 {
            return 0;
        }
        let res: FieldOperation = self.log[l as usize] as FieldOperation + self.log[r as usize] as FieldOperation;
        self.exp[res as usize]
    }

    /// Divides by subtracting logarithms. Dividing by 0 gives 0.
    pub fn div(&self, l: FieldElement, r: FieldElement) -> (res: FieldElement)
        requires
            self.wf(),
        ensures
            res == gf_div(self.modulus(), l, r),
    {
        reveal(gf_div);
        if l == 0 {
            return 0;
        }
        if r == 0 {
            return 0;
        }
        let res: FieldOperation = 255 + self.log[l as usize] as FieldOperation - self.log[r as usize] as FieldOperation;
        self.exp[res as usize]
    }

    /// Multiplies two elements given by their logarithms; the result is a
    /// logarithm in `0..=255`.
    pub fn mul_log(&self, l: FieldLogarithm, r: FieldLogarithm) -> (res: FieldLogarithm)
        ensures
            res == log_sum(l as int, r as int),
    {
        let res: FieldOperation = l as FieldOperation + r as FieldOperation;
        if res > 255 {
            return (res - 255) as FieldLogarithm;
        }
        res as FieldLogarithm
    }

    /// Divides two elements given by their logarithms; the result is a
    /// logarithm in `0..=255`.
    pub fn div_log(&self, l: FieldLogarithm, r: FieldLogarithm) -> (res: FieldLogarithm)
        ensures
            res == log_sum(l as int, 255 - r),
    {
        let res: FieldOperation = 255 + l as FieldOperation - r as FieldOperation;
        if res > 255 {
            return (res - 255) as FieldLogarithm;
        }
        res as FieldLogarithm
    }

    /// Multiplies two elements given by their logarithms; the result is an
    /// element.
    pub fn mul_log_element(&self, l: FieldLogarithm, r: FieldLogarithm) -> (res: FieldElement)
        requires
            self.wf(),
        ensures
            res == alpha_pow(self.modulus(), (l + r) as nat),
    {
        let res: FieldOperation = l as FieldOperation + r as FieldOperation;
        self.exp[res as usize]
    }

    /// Raises `elem` to a power, positive or negative. The table gives 0 the
    /// logarithm 0, so every power of 0 comes out as 1.
    pub fn pow(&self, elem: FieldElement, pow: i32) -> (res: FieldElement)
        requires
            self.wf(),
            i32::MIN <= gf_log(self.modulus(), elem) * pow <= i32::MAX,
        ensures
            res == alpha_pow(
                self.modulus(),
                ((gf_log(self.modulus(), elem) * pow) % 255) as nat,
            ),
    {
        let log: i64 = self.log[elem as usize] as i64;
        assert(log == gf_log(self.modulus(), elem));
        let wide: i64 = pow as i64;
        assert(0 <= log <= 255 && -0x8000_0000 <= wide <= 0x7fff_ffff ==> -0x80_0000_0000 <= log
            * wide <= 0x80_0000_0000) by (nonlinear_arith);
        let res_log: i64 = log * wide;
        if res_log >= 0 {
            let magnitude: u64 = res_log as u64;
            self.exp[(magnitude % 255) as usize]
        } else {
            let magnitude: u64 = (-res_log) as u64;
            let rest: u64 = magnitude % 255;
            if rest == 0 {
                assert(res_log % 255 == 0);
                self.exp[0]
            } else {
                assert(res_log % 255 == 255 - rest);
                self.exp[(255 - rest) as usize]
            }
        }
    }
}

} // verus!
