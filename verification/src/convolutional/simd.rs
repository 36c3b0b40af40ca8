//! Viterbi decoding many states at a time.
//!
//! This module holds [`SimdDecoder`], which decodes identically to the scalar
//! [`Decoder`](super::Decoder). It settles 8, 16 or 32 states at once, and picks
//! among several ways to bring the branch costs of those states together.
//!
//! The vectors are plain arrays, so every width is available on every host.

pub mod decoder;
pub mod distances;
pub mod lane;
pub mod oct_lookup;
pub mod settle;

pub use decoder::{path_available, preferred_path, DecoderArch, EnableArch, ForcedPath, SimdDecoder};
