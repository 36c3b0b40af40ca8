//! Errors of the convolutional codec, and the length arithmetic that decides
//! them.

use vstd::prelude::*;

verus! {

/// Error returned by the convolutional decoders.
///
/// A convolutional decoder always produces some output for a correctly-shaped
/// input. It cannot report "too many errors to correct". These variants cover
/// only structural problems with the call.
#[derive(Debug, Clone, Copy, PartialEq, Eq, Hash)]
#[non_exhaustive]
pub enum DecodeError {
    /// The encoded length in bits is not a multiple of the code's `rate`, or is
    /// too short to decode, or runs past the data that was passed.
    InvalidLength {
        /// The encoded length that was passed, in bits.
        num_encoded_bits: usize,
        /// The code's inverse rate (output bits per input bit).
        rate: u32,
    },
    /// The output buffer is too small to hold the decoded payload.
    OutputTooSmall {
        /// Payload length the decode would produce, in bytes.
        needed: usize,
        /// Length of the buffer that was supplied, in bytes.
        actual: usize,
    },
}

/// Error returned by [`Encoder::encode`](super::Encoder::encode).
///
/// Encoding itself cannot fail. The only error is a caller-supplied output
/// buffer too small to hold the encoded block.
#[derive(Debug, Clone, Copy, PartialEq, Eq, Hash)]
#[non_exhaustive]
pub enum EncodeError {
    /// The output buffer is too small to hold the encoded block.
    OutputTooSmall {
        /// Encoded length the call would produce, in bytes.
        needed: usize,
        /// Length of the buffer that was supplied, in bytes.
        actual: usize,
    },
}

/// Error returned by [`Puncturer`](super::Puncturer).
#[derive(Debug, Clone, Copy, PartialEq, Eq, Hash)]
#[non_exhaustive]
pub enum PunctureError {
    /// The pattern has no positions.
    EmptyPattern,
    /// The pattern keeps no bits.
    NoKeptBits,
    /// The rows of a puncture matrix differ in length.
    RaggedMatrix,
    /// The input buffer holds fewer bits than the call describes.
    InputTooSmall {
        /// Input length the call reads, in bytes (soft: symbols).
        needed: usize,
        /// Length of the buffer that was supplied.
        actual: usize,
    },
    /// The output buffer is too small to hold the result.
    OutputTooSmall {
        /// Output length the call would produce, in bytes (soft: symbols).
        needed: usize,
        /// Length of the buffer that was supplied.
        actual: usize,
    },
}

/// Bits to whole bytes, rounded up.
pub open spec fn bytes_for(bits: int) -> int {
    (bits + 7) / 8
}

/// The bytes hold all the bits, and one byte fewer would not.
pub proof fn lemma_bytes_for(bits: int)
    ensures
        bits <= 8 * bytes_for(bits) < bits + 8,
{
}

/// The number of bytes that hold `bits` bits.
pub(crate) fn div_ceil_8(bits: usize) -> (bytes: usize)
    ensures
        bytes == bytes_for(bits as int),
        bits <= 8 * bytes < bits + 8,
{
    if bits % 8 == 0 {
        bits / 8
    } else {
        bits / 8 + 1
    }
}

/// A block is a whole number of steps, and enough of them to fill the register
/// and flush it again.
pub open spec fn valid_encoded_len(num_encoded_bits: int, rate: int, order: int) -> bool {
    &&& num_encoded_bits % rate == 0
    &&& num_encoded_bits / rate >= 2 * order - 1
}

/// The payload of a block: the decoded bits, less the `order + 1` flush bits, as
/// whole bytes.
pub open spec fn payload_len(num_encoded_bits: int, rate: int, order: int) -> int {
    if num_encoded_bits / rate >= order + 1 {
        (num_encoded_bits / rate - (order + 1)) / 8
    } else {
        0
    }
}

/// Validates a decode's encoded length against the code parameters and returns
/// the number of decoded bits. Shared by the decoders so that their
/// preconditions cannot drift apart.
pub fn validate_encoded_len(num_encoded_bits: usize, rate: u32, order: u32) -> (res: Result<
    usize,
    DecodeError,
>)
    requires
        rate >= 1,
        1 <= order <= 0x7fff_ffff,
    ensures
        match res {
            Ok(n) => valid_encoded_len(num_encoded_bits as int, rate as int, order as int) && n
                == num_encoded_bits as int / rate as int,
            Err(e) => !valid_encoded_len(num_encoded_bits as int, rate as int, order as int) && e
                == (DecodeError::InvalidLength { num_encoded_bits, rate }),
        },
        res is Ok <==> num_encoded_bits as int % rate as int == 0 && num_encoded_bits as int
            / rate as int >= 2 * order - 1,
        res matches Ok(n) ==> n * rate == num_encoded_bits,
{
    let invalid = DecodeError::InvalidLength { num_encoded_bits, rate };
    if num_encoded_bits % rate as usize != 0 {
        return Err(invalid);
    }
    let num_decoded_bits: usize = num_encoded_bits / rate as usize;
    // head and tail each take order - 1 steps
    if num_decoded_bits < (2 * order - 1) as usize {
        return Err(invalid);
    }
    proof {
        vstd::arithmetic::div_mod::lemma_fundamental_div_mod(
            num_encoded_bits as int,
            rate as int,
        );
        assert(rate * num_decoded_bits == num_decoded_bits * rate) by (nonlinear_arith);
    }
    Ok(num_decoded_bits)
}

/// Length in bytes of the payload that a decode of `num_encoded_bits` produces.
pub fn payload_len_bytes(num_encoded_bits: usize, rate: u32, order: u32) -> (len: usize)
    requires
        rate >= 1,
        order < u32::MAX,
    ensures
        len == payload_len(num_encoded_bits as int, rate as int, order as int),
        num_encoded_bits as int / rate as int <= order ==> len == 0,
        num_encoded_bits as int / rate as int > order ==> 8 * len <= num_encoded_bits as int
            / rate as int - (order + 1) < 8 * len + 8,
{
    let decoded_bits: usize = num_encoded_bits / rate as usize;
    decoded_bits.saturating_sub((order + 1) as usize) / 8
}

} // verus!
