# fec

Forward error correction for SDR, space, and satellite links, verified with
Verus: Reed-Solomon over GF(2^8), including the CCSDS (255, 223) code, and
convolutional codes with Viterbi decoders, both scalar and wide.

- `src/reed_solomon` holds the codec and the algebra under it. The decoder's
  contract gives its result for every block; `decoding.rs` proves that up to half
  as many errors as there are roots, or as many erasures, are corrected.
- `src/convolutional` holds the encoder, the two decoders, puncturing and the
  test channel. The decoders' contracts name the message they find through the
  path metrics; `laws.rs` proves that all decoder paths agree, which errors are
  corrected in a block of any length, and that a block which fits the history
  decodes to the cheapest path. `guard.rs` proves that a block with one wrong bit
  in each window of `5 * order * rate` is corrected, if the code withstands that;
  `margin.rs` decides whether a code does. The codes in `tests` do.
- `src/search` enumerates generator polynomials and ranks them by free distance
  and number of nearest paths, with the Heller and Griesmer bounds.
- `src/shim.rs` keeps the state behind a C interface.
- `app` is ordinary Rust around the library: CPU detection, the C interface
  itself, channel simulation in floating point, and the command-line tools.
- `tests` runs the compiled library.
