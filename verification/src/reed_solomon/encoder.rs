//! Reed-Solomon encoder.

use super::ccsds;
use super::ccsds::{seq_to_conv, to_dual};
use super::code::{lemma_encoding_is_codeword, Code};
use super::field::{Field, FieldElement, FieldLogarithm, FieldOperation};
use super::poly_model::{is_remainder, lemma_roots_poly};
use super::polynomial::{
    generator_roots, polynomial_mod, reed_solomon_build_generator, Polynomial,
};
use super::primitive::{is_primitive_polynomial, lemma_primitive_polynomials};
use vstd::prelude::*;

verus! {

/// Error returned by [`Encoder::encode`].
#[derive(Debug, Clone, Copy, PartialEq, Eq, Hash)]
#[non_exhaustive]
pub enum EncodeError {
    /// The message was longer than the code's message capacity.
    MessageTooLong,
}

/// Reed-Solomon encoder over GF(2^8).
#[derive(Clone, Debug)]
pub struct Encoder {
    block_length: usize,
    message_length: usize,
    min_distance: usize,
    first_consecutive_root: FieldLogarithm,
    generator_root_gap: FieldLogarithm,
    field: Field,
    generator: Vec<FieldElement>,
    generator_order: usize,
    encoded_polynomial: Vec<FieldElement>,
    encoded_polynomial_order: usize,
    encoded_remainder: Vec<FieldElement>,
    encoded_remainder_order: usize,
}

impl Encoder {
    /// The code that this encoder encodes with.
    pub closed spec fn code(self) -> Code {
        Code {
            modulus: self.field.modulus(),
            first: self.first_consecutive_root as nat,
            gap: self.generator_root_gap as nat,
            parity: self.min_distance as nat,
        }
    }

    /// The tables and buffers belong to the code.
    pub closed spec fn wf(self) -> bool {
        &&& self.field.wf()
        &&& self.code().valid()
        &&& self.block_length == 255
        &&& self.message_length + self.min_distance == 255
        &&& self.generator@ == self.code().generator()
        &&& self.generator_order == self.min_distance
        &&& self.encoded_polynomial@.len() == 255
        &&& self.encoded_polynomial_order == 254
        &&& self.encoded_remainder@.len() == 255
        &&& self.encoded_remainder_order == 254
    }

    /// Builds an encoder for a (255, 255 - `num_roots`) Reed-Solomon code. The
    /// block size is always 255 bytes of 8-bit symbols. The code can repair up
    /// to `num_roots / 2` corrupted bytes per block. A larger `num_roots` adds
    /// parity overhead and slows decoding.
    ///
    /// `primitive_polynomial` is one of the `PRIMITIVE_POLYNOMIAL_*` constants.
    /// Sane values for `first_consecutive_root` and `generator_root_gap` are 1
    /// and 1. Not all combinations of values produce valid codes.
    pub fn new(
        primitive_polynomial: FieldOperation,
        first_consecutive_root: FieldLogarithm,
        generator_root_gap: FieldLogarithm,
        num_roots: usize,
    ) -> (encoder: Encoder)
        requires
            is_primitive_polynomial(primitive_polynomial),
            1 <= num_roots <= 255,
        ensures
            encoder.wf(),
            encoder.code() == (Code {
                modulus: primitive_polynomial,
                first: first_consecutive_root as nat,
                gap: generator_root_gap as nat,
                parity: num_roots as nat,
            }),
    {
        proof {
            lemma_primitive_polynomials(primitive_polynomial);
        }
        let field = Field::new(primitive_polynomial);
        let block_length: usize = 255;
        let min_distance: usize = num_roots;
        let message_length: usize = block_length - min_distance;

        let mut generator_roots_buf: Vec<FieldElement> = vec![0u8; min_distance];
        let mut generator: Vec<FieldElement> = vec![0u8; min_distance + 1];
        assert(generator_root_gap * (min_distance + first_consecutive_root) <= 255 * 510)
            by (nonlinear_arith)
            requires
                generator_root_gap <= 255,
                min_distance + first_consecutive_root <= 510,
        ;
        reed_solomon_build_generator(
            &field,
            min_distance,
            first_consecutive_root,
            generator_root_gap as usize,
            &mut generator,
            &mut generator_roots_buf,
        );
        assert(generator@.take(min_distance + 1) =~= generator@);

        let encoded_polynomial: Vec<FieldElement> = vec![0u8; block_length];
        let encoded_remainder: Vec<FieldElement> = vec![0u8; block_length];
        Encoder {
            block_length,
            message_length,
            min_distance,
            first_consecutive_root,
            generator_root_gap,
            field,
            generator,
            generator_order: min_distance,
            encoded_polynomial,
            encoded_polynomial_order: block_length - 1,
            encoded_remainder,
            encoded_remainder_order: block_length - 1,
        }
    }

    /// The block length in bytes, always 255.
    pub fn block_length(&self) -> (len: usize)
        requires
            self.wf(),
        ensures
            len == 255,
    {
        self.block_length
    }

    /// The message capacity in bytes, `block_length - num_roots`.
    pub fn message_length(&self) -> (len: usize)
        requires
            self.wf(),
        ensures
            len == 255 - self.code().parity,
    {
        self.message_length
    }

    /// The number of parity symbols, `num_roots`. The code corrects up to
    /// `min_distance / 2` byte errors per block.
    pub fn min_distance(&self) -> (distance: usize)
        requires
            self.wf(),
        ensures
            distance == self.code().parity,
    {
        self.min_distance
    }

    /// Encodes `msg` into `encoded`, message bytes followed by parity, and
    /// returns the block length of the code, 255. A message longer than the
    /// capacity is refused.
    ///
    /// A message shorter than the capacity is encoded with virtual padding that
    /// is not emitted. `encoded` must hold `msg.len() + num_roots` bytes; what it
    /// holds beyond them is left alone.
    pub fn encode(&mut self, msg: &[u8], encoded: &mut [u8]) -> (res: Result<usize, EncodeError>)
        requires
            old(self).wf(),
            msg@.len() + old(self).code().parity <= 255 ==> msg@.len() + old(self).code().parity
                <= old(encoded)@.len(),
        ensures
            final(self).wf(),
            final(self).code() == old(self).code(),
            final(encoded)@.len() == old(encoded)@.len(),
            msg@.len() + old(self).code().parity > 255 ==> {
                &&& res == Err::<usize, EncodeError>(EncodeError::MessageTooLong)
                &&& final(encoded)@ == old(encoded)@
            },
            msg@.len() + old(self).code().parity <= 255 ==> {
                let total = msg@.len() + old(self).code().parity as int;
                let block = final(encoded)@.take(total);
                &&& res == Ok::<usize, EncodeError>(255)
                &&& old(self).code().is_encoding(msg@, block)
                &&& old(self).code().is_codeword(block)
                &&& final(encoded)@.skip(total) == old(encoded)@.skip(total)
            },
    {
        let msg_length: usize = msg.len();
        if msg_length > self.message_length {
            return Err(EncodeError::MessageTooLong);
        }
        let ghost code = self.code();
        let ghost before = encoded@;
        let order: usize = self.encoded_polynomial_order;
        let pad_length: usize = self.message_length - msg_length;
        let min_distance: usize = self.min_distance;

        let mut k: usize = 0;
        while k < 255
            invariant
                k <= 255,
                self.wf(),
                self.code() == code,
                msg_length == msg@.len(),
                msg_length + pad_length + min_distance == 255,
                code.parity == min_distance,
                forall|t: int|
                    0 <= t < k ==> #[trigger] self.encoded_polynomial@[t] == code.message_poly(
                        msg@,
                    )[t],
            decreases 255 - k,
        {
            if k >= min_distance && k < min_distance + msg_length {
                self.encoded_polynomial[k] = msg[msg_length - 1 - (k - min_distance)];
            } else {
                self.encoded_polynomial[k] = 0;
            }
            k = k + 1;
        }

        let dividend = Polynomial::new(&self.encoded_polynomial, order);
        let divisor = Polynomial::new(&self.generator, self.generator_order);
        proof {
            assert(dividend.coeffs() =~= code.message_poly(msg@));
            lemma_roots_poly(
                code.modulus,
                generator_roots(code.modulus, code.first, code.gap, code.parity),
                0,
            );
            assert(divisor.coeffs() =~= code.generator());
        }
        polynomial_mod(
            &self.field,
            &dividend,
            &divisor,
            &mut self.encoded_remainder,
            self.encoded_remainder_order,
        );
        let ghost rem = self.encoded_remainder@.take(min_distance as int);
        assert(is_remainder(code.modulus, code.message_poly(msg@), code.generator(), rem));

        let mut i: usize = 0;
        while i < msg_length
            invariant
                i <= msg_length,
                msg_length == msg@.len(),
                msg_length + min_distance <= encoded@.len(),
                encoded@.len() == before.len(),
                forall|t: int| 0 <= t < i ==> #[trigger] encoded@[t] == msg@[t],
                forall|t: int| i <= t < encoded@.len() ==> #[trigger] encoded@[t] == before[t],
            decreases msg_length - i,
        {
            encoded[i] = msg[i];
            i = i + 1;
        }

        let mut j: usize = 0;
        while j < min_distance
            invariant
                j <= min_distance,
                self.wf(),
                min_distance == self.min_distance,
                msg_length == msg@.len(),
                msg_length + min_distance <= 255,
                rem == self.encoded_remainder@.take(min_distance as int),
                msg_length + min_distance <= encoded@.len(),
                encoded@.len() == before.len(),
                forall|t: int| 0 <= t < msg_length ==> #[trigger] encoded@[t] == msg@[t],
                forall|t: int|
                    msg_length <= t < msg_length + j ==> #[trigger] encoded@[t] == rem[min_distance
                        - 1 - (t - msg_length)],
                forall|t: int|
                    msg_length + j <= t < encoded@.len() ==> #[trigger] encoded@[t] == before[t],
            decreases min_distance - j,
        {
            encoded[msg_length + j] = self.encoded_remainder[min_distance - (j + 1)];
            j = j + 1;
        }
        proof {
            let total = (msg_length + min_distance) as int;
            let block = encoded@.take(total);
            assert(block.take(msg_length as int) =~= msg@);
            assert(block.skip(msg_length as int).reverse() =~= rem);
            lemma_encoding_is_codeword(code, msg@, block);
            assert(encoded@.skip(total) =~= before.skip(total));
        }
        Ok(self.block_length)
    }

    /// Builds an encoder for the standard CCSDS (255,223) code in the
    /// conventional basis. For the dual basis used on the wire, see
    /// [`Encoder::encode_ccsds_dual`].
    pub fn new_ccsds() -> (encoder: Encoder)
        ensures
            encoder.wf(),
            encoder.code() == Code::ccsds(),
    {
        Encoder::new(
            ccsds::CCSDS_PRIMITIVE_POLYNOMIAL,
            ccsds::CCSDS_FIRST_CONSECUTIVE_ROOT,
            ccsds::CCSDS_GENERATOR_ROOT_GAP,
            ccsds::CCSDS_NUM_ROOTS,
        )
    }

    /// Encodes a message of dual-basis symbols, as they appear on the wire, and
    /// writes the parity, also in the dual basis, to `parity`, which should hold
    /// `num_roots` bytes; a shorter slice gets as much as it holds. The message
    /// is transformed to the conventional basis, encoded, and the parity
    /// transformed back.
    pub fn encode_ccsds_dual(&mut self, msg: &[u8], parity: &mut [u8]) -> (res: Result<
        (),
        EncodeError,
    >)
        requires
            old(self).wf(),
        ensures
            final(self).wf(),
            final(self).code() == old(self).code(),
            final(parity)@.len() == old(parity)@.len(),
            msg@.len() + old(self).code().parity > 255 ==> {
                &&& res == Err::<(), EncodeError>(EncodeError::MessageTooLong)
                &&& final(parity)@ == old(parity)@
            },
            msg@.len() + old(self).code().parity <= 255 ==> {
                &&& res == Ok::<(), EncodeError>(())
                &&& exists|block: Seq<u8>| #[trigger]
                    old(self).code().is_encoding(seq_to_conv(msg@), block) && parity_written(
                        block.skip(msg@.len() as int),
                        old(parity)@,
                        final(parity)@,
                    )
            },
    {
        if msg.len() > self.message_length {
            return Err(EncodeError::MessageTooLong);
        }
        let ghost code = self.code();
        let ghost before = parity@;
        let conv_msg: Vec<u8> = ccsds::dual_to_conv_all(msg);
        let mut block: Vec<u8> = vec![0u8; self.block_length];
        match self.encode(&conv_msg, &mut block) {
            Ok(_) => {},
            Err(e) => {
                return Err(e);
            },
        }
        let m: usize = msg.len();
        let n: usize = self.min_distance;
        let ghost sent = block@.take(m + n);
        let mut i: usize = 0;
        while i < n && i < parity.len()
            invariant
                i <= n,
                i <= parity@.len(),
                m + n <= 255,
                block@.len() == 255,
                sent == block@.take(m + n),
                parity@.len() == before.len(),
                forall|k: int| 0 <= k < i ==> #[trigger] parity@[k] == to_dual(sent[m + k]),
                forall|k: int| i <= k < parity@.len() ==> #[trigger] parity@[k] == before[k],
            decreases n - i,
        {
            parity[i] = ccsds::conv_to_dual(block[m + i]);
            i = i + 1;
        }
        proof {
            assert(code.is_encoding(seq_to_conv(msg@), sent));
            assert(parity_written(sent.skip(m as int), before, parity@));
        }
        Ok(())
    }
}

/// `after` is `before` with the parity, in the dual basis, written over its
/// start, as far as both go.
pub open spec fn parity_written(parity: Seq<u8>, before: Seq<u8>, after: Seq<u8>) -> bool {
    &&& after.len() == before.len()
    &&& forall|k: int|
        0 <= k < after.len() ==> #[trigger] after[k] == if k < parity.len() {
            to_dual(parity[k])
        } else {
            before[k]
        }
}

} // verus!
