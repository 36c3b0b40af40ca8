//! Field and polynomial arithmetic.

use fec::reed_solomon::field::{Field, FieldElement, FieldOperation};
use fec::reed_solomon::polynomial::{
    polynomial_build_exp_lut, polynomial_eval, polynomial_eval_log_lut, polynomial_eval_lut,
    polynomial_formal_derivative, polynomial_init_from_roots, polynomial_mod, polynomial_mul,
    Polynomial,
};

const PRIM: FieldOperation = 0x11d;

#[test]
fn exp_log_are_inverses() {
    let field = Field::new(PRIM);
    // every nonzero element has a logarithm that exponentiates back to it
    for e in 1..=255u16 {
        let e = e as FieldElement;
        assert_eq!(field.exp[field.log[e as usize] as usize], e);
    }
    // alpha^0 == 1 and the exp table wraps with period 255
    assert_eq!(field.exp[0], 1);
    for i in 0..255usize {
        assert_eq!(field.exp[i], field.exp[i + 255]);
    }
}

#[test]
fn mul_div_roundtrip() {
    let field = Field::new(PRIM);
    for a in 1..=255u16 {
        for b in 1..=255u16 {
            let (a, b) = (a as FieldElement, b as FieldElement);
            let prod = field.mul(a, b);
            // dividing the product by one factor recovers the other
            assert_eq!(field.div(prod, b), a);
        }
    }
}

#[test]
fn mul_zero() {
    let field = Field::new(PRIM);
    for a in 0..=255u16 {
        assert_eq!(field.mul(a as FieldElement, 0), 0);
        assert_eq!(field.mul(0, a as FieldElement), 0);
    }
}

#[test]
fn add_is_xor_and_self_inverse() {
    let field = Field::new(PRIM);
    for a in 0..=255u16 {
        for b in 0..=255u16 {
            let (a, b) = (a as FieldElement, b as FieldElement);
            assert_eq!(field.add(a, b), a ^ b);
        }
        // adding an element to itself yields zero
        assert_eq!(field.add(a as FieldElement, a as FieldElement), 0);
    }
}

#[test]
fn sum_parity() {
    let field = Field::new(PRIM);
    // sum is elem for odd n, 0 for even n
    assert_eq!(field.sum(0xab, 1), 0xab);
    assert_eq!(field.sum(0xab, 2), 0);
    assert_eq!(field.sum(0xab, 3), 0xab);
    assert_eq!(field.sum(0xab, 4), 0);
}

#[test]
fn log_arithmetic_matches_element_arithmetic() {
    let field = Field::new(PRIM);
    for a in 1..=255u16 {
        for b in 1..=255u16 {
            let (a, b) = (a as FieldElement, b as FieldElement);
            let la = field.log[a as usize];
            let lb = field.log[b as usize];
            // mul_log_element on logs matches mul on elements
            assert_eq!(field.mul_log_element(la, lb), field.mul(a, b));
            // mul_log produces the log of the product
            assert_eq!(field.exp[field.mul_log(la, lb) as usize], field.mul(a, b));
            // div_log produces the log of the quotient
            assert_eq!(field.exp[field.div_log(la, lb) as usize], field.div(a, b));
        }
    }
}

#[test]
fn pow_matches_repeated_mul() {
    let field = Field::new(PRIM);
    for a in 1..=255u16 {
        let a = a as FieldElement;
        let mut acc: FieldElement = 1;
        for p in 0..=8 {
            assert_eq!(field.pow(a, p), acc);
            acc = field.mul(acc, a);
        }
    }
}

#[test]
fn from_roots_vanishes_at_roots() {
    let field = Field::new(PRIM);
    let roots: [FieldElement; 4] = [1, 2, 3, 4];
    let nroots = roots.len();

    let mut poly = vec![0u8; nroots + 1];
    let mut s0 = vec![0u8; nroots + 1];
    let mut s1 = vec![0u8; nroots + 1];
    polynomial_init_from_roots(&field, nroots, &roots, &mut poly, &mut s0, &mut s1);

    // leading coefficient is 1 (monic), since each factor contributes x
    assert_eq!(poly[nroots], 1);

    let p = Polynomial::new(&poly, nroots);
    // the polynomial must evaluate to zero at each of its roots
    for &r in roots.iter() {
        assert_eq!(polynomial_eval(&field, &p, r), 0, "root {r} did not vanish");
    }
    // and (almost surely) nonzero at a non-root
    assert_ne!(polynomial_eval(&field, &p, 99), 0);
}

#[test]
fn eval_lut_matches_direct() {
    let field = Field::new(PRIM);
    let coeff: [FieldElement; 5] = [0x1f, 0x00, 0xa3, 0x07, 0x01];
    let p = Polynomial::new(&coeff, 4);

    for val in 0..=255u16 {
        let val = val as FieldElement;
        let direct = polynomial_eval(&field, &p, val);

        let mut lut = vec![0u8; p.order + 1];
        polynomial_build_exp_lut(&field, val, p.order, &mut lut);
        let via_lut = polynomial_eval_lut(&field, &p, &lut);

        assert_eq!(direct, via_lut, "mismatch at val={val:#x}");
    }
}

#[test]
fn eval_log_lut_matches_direct() {
    let field = Field::new(PRIM);
    // a polynomial whose coefficients are all nonzero, so we can take a
    // log-domain copy without hitting the log(0) sentinel
    let coeff: [FieldElement; 4] = [0x1f, 0x42, 0xa3, 0x07];
    let p = Polynomial::new(&coeff, 3);

    // log-domain version: each coeff replaced by its logarithm
    let coeff_log: Vec<u8> = coeff.iter().map(|&c| field.log[c as usize]).collect();
    let p_log = Polynomial::new(&coeff_log, 3);

    for val in 1..=255u16 {
        let val = val as FieldElement;
        let direct = polynomial_eval(&field, &p, val);

        let mut lut = vec![0u8; p.order + 1];
        polynomial_build_exp_lut(&field, val, p.order, &mut lut);
        let via_log_lut = polynomial_eval_log_lut(&field, &p_log, &lut);

        assert_eq!(direct, via_log_lut, "mismatch at val={val:#x}");
    }
}

#[test]
fn mul_then_mod_is_zero() {
    let field = Field::new(PRIM);
    // (x + 1)(x + 2) as a product of two linear factors
    let a = [1u8, 1u8]; // 1 + x  (order 1)
    let b = [2u8, 1u8]; // 2 + x  (order 1)
    let pa = Polynomial::new(&a, 1);
    let pb = Polynomial::new(&b, 1);

    let mut prod = [0u8; 3];
    polynomial_mul(&field, &pa, &pb, &mut prod, 2);

    // dividing the product by (x + 1) must leave zero remainder
    let prod_poly = Polynomial::new(&prod, 2);
    let mut rem = [0u8; 3];
    polynomial_mod(&field, &prod_poly, &pa, &mut rem, 2);
    // remainder has degree < divisor.order (=1), so only rem[0] matters
    assert_eq!(rem[0], 0, "expected exact division, got remainder {:?}", rem);
}

#[test]
fn truncated_mul_keeps_low_orders() {
    let field = Field::new(PRIM);
    let a = [3u8, 5u8, 7u8]; // order 2
    let b = [2u8, 4u8, 6u8]; // order 2
    let pa = Polynomial::new(&a, 2);
    let pb = Polynomial::new(&b, 2);

    // full product has order 4
    let mut full = [0u8; 5];
    polynomial_mul(&field, &pa, &pb, &mut full, 4);

    // mul mod x^3 (truncated to order 2) must equal the low coefficients of full
    let mut trunc = [0u8; 3];
    polynomial_mul(&field, &pa, &pb, &mut trunc, 2);

    assert_eq!(&trunc[..3], &full[..3]);
}

#[test]
fn formal_derivative_drops_even_terms() {
    let field = Field::new(PRIM);
    // p = a0 + a1 x + a2 x^2 + a3 x^3
    let coeff = [0x10u8, 0x20, 0x30, 0x40];
    let p = Polynomial::new(&coeff, 3);

    let mut der = [0u8; 3];
    polynomial_formal_derivative(&field, &p, &mut der, 2);

    // der[i] = sum(coeff[i+1], i+1): odd multiplier keeps the term, even kills it
    // i=0 -> n=1 (odd)  -> coeff[1]
    // i=1 -> n=2 (even) -> 0
    // i=2 -> n=3 (odd)  -> coeff[3]
    assert_eq!(der[0], coeff[1]);
    assert_eq!(der[1], 0);
    assert_eq!(der[2], coeff[3]);
}
