//! Forward error correction for SDR, space, and satellite links.
//!
//! The two codecs each live in their own module. [`convolutional`] holds the
//! Viterbi encoder and decoder. [`reed_solomon`] holds the Reed-Solomon codec,
//! including the standard CCSDS (255,223) code. [`search`] looks for good
//! generator polynomials, and [`shim`] keeps the state behind a C interface.
//!
//! Each codec names its types plainly as `Encoder` and `Decoder`. The crate root
//! also offers them under `Conv`- and `Rs`-prefixed names, so both codecs can be
//! used in one scope without a name clash.
//!
//! Every function states what it returns in its contract. The promises that span
//! several functions stand beside them as lemmas: that a Reed-Solomon block is
//! corrected ([`reed_solomon::decoding::lemma_round_trip`]), that the Viterbi
//! decoder finds the cheapest message ([`convolutional::laws`]), and that the
//! wide decoder decodes as the scalar one does.

pub mod convolutional;
pub mod reed_solomon;
pub mod search;
pub mod shim;
pub mod util;

pub use convolutional::{
    DecodeError as ConvDecodeError, Decoder as ConvDecoder, EncodeError as ConvEncodeError,
    Encoder as ConvEncoder, Puncturer as ConvPuncturer, SimdDecoder as ConvSimdDecoder,
};
pub use reed_solomon::{
    DecodeError as RsDecodeError, EncodeError as RsEncodeError, Encoder as RsEncoder, RsDecoder,
};
