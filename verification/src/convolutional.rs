//! Convolutional codes with a Viterbi decoder.
//!
//! A convolutional code turns each message bit into `rate` encoded bits that
//! depend on the last `order` message bits, as the generator polynomials say.
//! Build an [`Encoder`] and a [`Decoder`] with the same parameters. The decoder
//! takes hard bits or soft symbols; [`SimdDecoder`] settles many states at a time
//! and decodes the same. [`Puncturer`] drops encoded bits to raise the rate, and
//! the decoders take its erasure mask.
//!
//! [`trellis`] models the code and [`viterbi`] the search through it;
//! [`laws`] states what follows for a message that is encoded, sent and decoded,
//! and [`guard`] what does when the errors are scattered, for the codes that
//! [`margin`] finds to withstand them. [`response`] says what the encoder puts
//! out, tap by tap, and [`recovery`] what a decode gives back, in terms of the
//! bytes, symbols and masks that were passed; [`traceback`] says of every bit which
//! path it is read from. [`kept`] follows a pattern's own
//! entries through puncturing and back.

pub mod bit;
pub mod channel;
pub mod decoder;
pub mod encoder;
pub mod error;
pub mod guard;
pub mod history;
pub mod kept;
pub mod laws;
pub mod margin;
pub mod paths;
pub mod puncture;
pub mod recovery;
pub mod response;
pub mod sim;
pub mod simd;
pub mod tables;
pub mod traceback;
pub mod trellis;
pub mod util;
pub mod viterbi;

pub use decoder::Decoder;
pub use encoder::Encoder;
pub use error::{DecodeError, EncodeError, PunctureError};
pub use puncture::Puncturer;
pub use simd::{DecoderArch, ForcedPath, SimdDecoder};

use encoder::encoded_len;
use error::payload_len;
use vstd::prelude::*;

verus! {

/// Returns the encoded length, in *bits*, of a message of `len` *bytes* under a
/// code with this `rate` and `order`.
///
/// The count includes the `order + 1` flush bits the encoder appends.
pub fn encoded_len_bits(rate: u32, order: u32, len: usize) -> (bits: usize)
    requires
        rate == 0 ==> 8 * len + order + 1 <= usize::MAX,
        encoded_len(rate as int, order as int, len as int) <= usize::MAX,
    ensures
        bits == encoded_len(rate as int, order as int, len as int),
        bits == rate * (8 * len + order + 1),
{
    let ghost total = 8 * len + order + 1;
    assert(rate >= 1 ==> total <= rate * total) by (nonlinear_arith)
        requires
            total >= 0,
    ;
    rate as usize * (len * 8 + order as usize + 1)
}

/// Returns the payload length, in *bytes*, that decoding `num_encoded_bits` bits
/// produces under a code with this `rate` and `order`.
///
/// This is the inverse of [`encoded_len_bits`].
pub fn payload_len_bytes(rate: u32, order: u32, num_encoded_bits: usize) -> (len: usize)
    requires
        rate >= 1,
        order < u32::MAX,
    ensures
        len == payload_len(num_encoded_bits as int, rate as int, order as int),
        num_encoded_bits as int / rate as int <= order ==> len == 0,
        num_encoded_bits as int / rate as int > order ==> 8 * len <= num_encoded_bits as int
            / rate as int - (order + 1) < 8 * len + 8,
{
    error::payload_len_bytes(num_encoded_bits, rate, order)
}

/// The payload length of an encoded message is the message's length.
pub proof fn lemma_payload_len_inverts(rate: int, order: int, len: int)
    requires
        rate >= 1,
        order >= 0,
        len >= 0,
    ensures
        payload_len(encoded_len(rate, order, len), rate, order) == len,
{
    let total = 8 * len + order + 1;
    assert(rate * total == total * rate) by (nonlinear_arith);
    vstd::arithmetic::div_mod::lemma_fundamental_div_mod_converse(rate * total, rate, total, 0);
}

} // verus!
