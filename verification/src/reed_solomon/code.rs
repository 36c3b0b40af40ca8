//! What a Reed-Solomon code is: parameters, codewords and the encoding of a
//! message.
//!
//! Byte `k` of a block of `len` bytes is the coefficient of x^(len - 1 - k), so
//! that a block read backwards is a polynomial, low order first. A block is a
//! codeword when that polynomial vanishes at every root of the generator.

use super::ccsds::{
    CCSDS_FIRST_CONSECUTIVE_ROOT, CCSDS_GENERATOR_ROOT_GAP, CCSDS_NUM_ROOTS,
    CCSDS_PRIMITIVE_POLYNOMIAL,
};
use super::galois::{is_primitive, lemma_xor};
use super::poly_model::{
    coef, conv, is_quotient, is_remainder, lemma_eval_add, lemma_remainder_eval,
    lemma_remainder_unique, lemma_roots_poly, poly_eval, roots_poly,
};
use super::polynomial::{generator_root, generator_roots};
use vstd::prelude::*;

verus! {

/// The parameters of a code with blocks of 255 bytes.
pub struct Code {
    /// The polynomial that the field is built from.
    pub modulus: u16,
    /// The index of the generator's first root.
    pub first: nat,
    /// The step from one root of the generator to the next.
    pub gap: nat,
    /// The number of roots, which is the number of parity bytes.
    pub parity: nat,
}

impl Code {
    /// The standard CCSDS (255,223) code.
    pub open spec fn ccsds() -> Code {
        Code {
            modulus: CCSDS_PRIMITIVE_POLYNOMIAL,
            first: CCSDS_FIRST_CONSECUTIVE_ROOT as nat,
            gap: CCSDS_GENERATOR_ROOT_GAP as nat,
            parity: CCSDS_NUM_ROOTS as nat,
        }
    }

    /// The field is a field, and there is at least one parity byte.
    pub open spec fn valid(self) -> bool {
        &&& is_primitive(self.modulus)
        &&& 1 <= self.parity <= 255
    }

    /// The `i`th root of the generator.
    pub open spec fn root(self, i: int) -> u8 {
        generator_root(self.modulus, self.first, self.gap, i)
    }

    /// The generator polynomial.
    pub open spec fn generator(self) -> Seq<u8> {
        roots_poly(
            self.modulus,
            generator_roots(self.modulus, self.first, self.gap, self.parity),
        )
    }

    /// The value of a block at the `i`th root of the generator.
    pub open spec fn syndrome(self, block: Seq<u8>, i: int) -> u8 {
        poly_eval(self.modulus, block.reverse(), self.root(i))
    }

    /// All the syndromes of a block.
    pub open spec fn syndromes(self, block: Seq<u8>) -> Seq<u8> {
        Seq::new(self.parity, |i: int| self.syndrome(block, i))
    }

    /// The blocks without error.
    pub open spec fn is_codeword(self, block: Seq<u8>) -> bool {
        &&& self.parity <= block.len() <= 255
        &&& forall|i: int| 0 <= i < self.parity ==> #[trigger] self.syndrome(block, i) == 0
    }

    /// The message as a polynomial of 255 coefficients: above the parity, and
    /// with zeros for the part of the message capacity that is not used.
    pub open spec fn message_poly(self, msg: Seq<u8>) -> Seq<u8> {
        Seq::new(
            255,
            |k: int|
                if self.parity <= k < self.parity + msg.len() {
                    msg[msg.len() - 1 - (k - self.parity)]
                } else {
                    0
                },
        )
    }

    /// The block is the message followed by parity, and the parity is the
    /// remainder of the message modulo the generator.
    pub open spec fn is_encoding(self, msg: Seq<u8>, block: Seq<u8>) -> bool {
        &&& block.len() == msg.len() + self.parity
        &&& block.take(msg.len() as int) == msg
        &&& is_remainder(
            self.modulus,
            self.message_poly(msg),
            self.generator(),
            block.skip(msg.len() as int).reverse(),
        )
    }
}

/// An encoded message is a codeword.
pub proof fn lemma_encoding_is_codeword(code: Code, msg: Seq<u8>, block: Seq<u8>)
    requires
        code.valid(),
        code.is_encoding(msg, block),
        block.len() <= 255,
    ensures
        code.is_codeword(block),
{
    let p = code.modulus;
    let dividend = code.message_poly(msg);
    let rem = block.skip(msg.len() as int).reverse();
    let whole = block.reverse();
    let g = code.generator();
    let roots = generator_roots(p, code.first, code.gap, code.parity);
    assert forall|k: int| #[trigger] coef(whole, k) == coef(dividend, k) ^ coef(rem, k) by {
        lemma_xor(coef(dividend, k), coef(rem, k), 0);
        lemma_xor(coef(rem, k), 0, 0);
        if code.parity <= k < block.len() {
            assert(block.take(msg.len() as int)[block.len() - 1 - k] == block[block.len() - 1 - k]);
        }
    }
    assert forall|i: int| 0 <= i < code.parity implies #[trigger] code.syndrome(block, i) == 0 by {
        let x = code.root(i);
        assert(roots[i] == x);
        lemma_roots_poly(p, roots, x);
        lemma_remainder_eval(p, dividend, g, rem, x);
        lemma_eval_add(p, dividend, rem, whole, x);
        lemma_xor(poly_eval(p, rem, x), poly_eval(p, rem, x), 0);
    }
}

/// A message has only one encoding.
pub proof fn lemma_encoding_unique(code: Code, msg: Seq<u8>, a: Seq<u8>, b: Seq<u8>)
    requires
        code.valid(),
        msg.len() + code.parity <= 255,
        code.is_encoding(msg, a),
        code.is_encoding(msg, b),
    ensures
        a == b,
{
    let roots = generator_roots(code.modulus, code.first, code.gap, code.parity);
    lemma_roots_poly(code.modulus, roots, 0);
    let m = msg.len() as int;
    let (x, y) = (a.skip(m).reverse(), b.skip(m).reverse());
    if code.parity == 255 {
        // there is no room for a message, and nothing to divide
        let q1 = choose|q: Seq<u8>| #[trigger]
            is_quotient(code.modulus, code.message_poly(msg), code.generator(), q, x);
        let q2 = choose|q: Seq<u8>| #[trigger]
            is_quotient(code.modulus, code.message_poly(msg), code.generator(), q, y);
        assert(q1 =~= q2);
        assert forall|k: int| 0 <= k < 255 implies x[k] == y[k] by {
            let (c, d) = (code.message_poly(msg)[k], conv(code.modulus, q1, code.generator(), k));
            lemma_xor(x[k], d, c);
            lemma_xor(y[k], d, c);
            lemma_xor(d, x[k], 0);
            lemma_xor(d, y[k], 0);
        }
        assert(x =~= y);
    } else {
        lemma_remainder_unique(code.modulus, code.message_poly(msg), code.generator(), x, y);
    }
    assert forall|i: int| 0 <= i < a.len() implies a[i] == b[i] by {
        if i < m {
            assert(a.take(m)[i] == b.take(m)[i]);
        } else {
            assert(x[a.len() - 1 - i] == a[i]);
            assert(y[a.len() - 1 - i] == b[i]);
        }
    }
    assert(a =~= b);
}

} // verus!
