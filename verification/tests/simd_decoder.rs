//! The wide decoder on every path and at every width.

use fec::convolutional::sim::{count_flips, flip_with_interval, Rng};
use fec::convolutional::{DecodeError, Decoder, Encoder};
use fec::convolutional::simd::{DecoderArch, ForcedPath, SimdDecoder};

#[derive(Clone, Copy, Debug)]
enum Arch {
    Sse,
    Avx2,
    Avx512,
}

impl Arch {
    fn caps(self) -> DecoderArch {
        match self {
            Arch::Sse => DecoderArch::Sse41,
            Arch::Avx2 => DecoderArch::Avx2,
            Arch::Avx512 => DecoderArch::Avx512,
        }
    }
}

fn host_archs() -> Vec<Arch> {
    vec![Arch::Sse, Arch::Avx2, Arch::Avx512]
}

/// A channel for one code and message length, with Gaussian noise.
struct Testbench {
    encoder: Encoder,
    encoded: Vec<u8>,
    noise: Vec<f64>,
    enclen_bits: usize,
}

fn next_f64(rng: &mut Rng) -> f64 {
    rng.next_u53() as f64 / (1u64 << 53) as f64
}

fn gaussian(out: &mut [f64], sigma: f64, rng: &mut Rng) {
    let mut i = 0;
    while i < out.len() {
        let (u, v, s) = loop {
            let u = 2.0 * next_f64(rng) - 1.0;
            let v = 2.0 * next_f64(rng) - 1.0;
            let s = u * u + v * v;
            if s > f64::EPSILON && s < 1.0 {
                break (u, v, s);
            }
        };
        let base = ((-2.0 * s.ln()) / s).sqrt();
        out[i] = u * base * sigma;
        if i + 1 < out.len() {
            out[i + 1] = v * base * sigma;
        }
        i += 2;
    }
}

fn sigma_for_eb_n0(eb_n0_db: f64, bpsk_bit_energy: f64) -> f64 {
    (bpsk_bit_energy / (2.0 * 10f64.powf(eb_n0_db / 10.0))).sqrt()
}

fn bpsk_params(rate: u32) -> (f64, f64) {
    let bpsk_voltage = 1.0 / 2f64.sqrt();
    (bpsk_voltage, 2.0 * bpsk_voltage * bpsk_voltage * rate as f64)
}

impl Testbench {
    fn new(rate: u32, order: u32, polys: &[u16], msg_len: usize) -> Testbench {
        let encoder = Encoder::new(rate, order, polys);
        let enclen_bits = encoder.encode_len(msg_len);
        Testbench {
            encoder,
            encoded: vec![0u8; enclen_bits / 8 + 1],
            noise: vec![0.0; enclen_bits],
            enclen_bits,
        }
    }

    fn enc_bits(&self) -> usize {
        self.enclen_bits
    }

    fn build_noise(&mut self, eb_n0_db: f64, bpsk_bit_energy: f64, rng: &mut Rng) {
        let sigma = sigma_for_eb_n0(eb_n0_db, bpsk_bit_energy);
        gaussian(&mut self.noise, sigma, rng);
    }

    fn bpsk_with_noise_soft(&mut self, msg: &[u8], bpsk_voltage: f64, out: &mut [u8]) -> usize {
        self.encoder.encode(msg, &mut self.encoded).unwrap();
        let inv_sqrt2 = 1.0 / 2f64.sqrt();
        for i in 0..self.enclen_bits {
            let sent = if self.encoded[i / 8] & (0x80 >> (i % 8)) != 0 {
                bpsk_voltage
            } else {
                -bpsk_voltage
            };
            let rel = (sent + self.noise[i] * inv_sqrt2) / bpsk_voltage;
            out[i] = if rel > 1.0 {
                255
            } else if rel < -1.0 {
                0
            } else {
                (127.5 + 127.5 * rel) as u8
            };
        }
        count_flips(&self.encoded, out)
    }
}

#[test]
fn rejects_malformed_inputs() {
    let mut d = SimdDecoder::<2, 7>::new(&[0o155, 0o117]);
    let mut out = vec![0u8; 64];
    // must be a multiple of rate.
    assert!(matches!(
        d.decode_hard(&[0u8; 16], 7, &mut out),
        Err(DecodeError::InvalidLength { .. })
    ));
    // longer than input buffer holds
    assert!(matches!(
        d.decode_hard(&[0u8; 2], 64, &mut out),
        Err(DecodeError::InvalidLength { .. })
    ));
    // too short to decode
    assert!(matches!(
        d.decode_hard(&[0u8; 4], 8, &mut out),
        Err(DecodeError::InvalidLength { .. })
    ));
    // too short to decode
    assert!(matches!(
        d.decode_soft(&[0u8; 4], &mut out),
        Err(DecodeError::InvalidLength { .. })
    ));
}

fn assert_decode_matches<const RATE: u32, const ORDER: u32>(
    polys: &[u16],
    msg_len: usize,
    seed: u64,
    arch: Arch,
    hard: bool,
    clean: bool,
) {
    let mut rng = Rng::new(seed);
    let mut msg = vec![0u8; msg_len];
    rng.fill(&mut msg);

    let mut enc = Encoder::new(RATE, ORDER, polys);
    let enc_bits = enc.encode_len(msg_len);
    let mut encoded = vec![0u8; enc_bits.div_ceil(8)];
    enc.encode(&msg, &mut encoded).unwrap();

    if !clean {
        flip_with_interval(&mut encoded, enc_bits, RATE, ORDER, &mut rng);
    }

    let mut simd_out = vec![0u8; msg_len];
    let mut simd = SimdDecoder::<RATE, ORDER>::new(polys).with_max_arch(arch.caps());

    if hard {
        simd.decode_hard(&encoded, enc_bits, &mut simd_out).unwrap();
    } else {
        let mut soft = vec![0u8; enc_bits];
        for (i, s) in soft.iter_mut().enumerate() {
            *s = if encoded[i / 8] & (0x80 >> (i % 8)) != 0 {
                255
            } else {
                0
            };
        }
        simd.decode_soft(&soft, &mut simd_out).unwrap();
    }

    let mode = if hard { "hard" } else { "soft" };
    assert_eq!(
        &simd_out, &msg,
        "SIMD decode wrong: rate={RATE} order={ORDER} len={msg_len} mode={mode} \
         clean={clean} seed={seed} arch={arch:?}"
    );
}

fn assert_decode_matches_all_archs<const RATE: u32, const ORDER: u32>(polys: &[u16]) {
    for arch in host_archs() {
        for clean in [false, true] {
            for hard in [false, true] {
                for (msg_len, seeds) in [(256usize, 32u64), (1500usize, 8u64)] {
                    for seed in 1..=seeds {
                        assert_decode_matches::<RATE, ORDER>(polys, msg_len, seed, arch, hard, clean);
                    }
                }
            }
        }
    }
}

#[test]
fn decode_matches_all_archs_2_4() {
    assert_decode_matches_all_archs::<2, 4>(&[0o017, 0o013]);
}
#[test]
fn decode_matches_all_archs_2_5() {
    assert_decode_matches_all_archs::<2, 5>(&[0o027, 0o023]);
}
#[test]
fn decode_matches_all_archs_2_6() {
    assert_decode_matches_all_archs::<2, 6>(&[0o065, 0o057]);
}
#[test]
fn decode_matches_all_archs_2_7() {
    assert_decode_matches_all_archs::<2, 7>(&[0o155, 0o117]);
}
#[test]
fn decode_matches_all_archs_2_8() {
    assert_decode_matches_all_archs::<2, 8>(&[0o367, 0o225]);
}
#[test]
fn decode_matches_all_archs_2_9() {
    assert_decode_matches_all_archs::<2, 9>(&[0o657, 0o435]);
}
#[test]
fn decode_matches_all_archs_2_10() {
    assert_decode_matches_all_archs::<2, 10>(&[0o1627, 0o1063]);
}
#[test]
fn decode_matches_all_archs_3_9() {
    assert_decode_matches_all_archs::<3, 9>(&[0o755, 0o633, 0o447]);
}
#[test]
fn decode_matches_all_archs_4_7() {
    assert_decode_matches_all_archs::<4, 7>(&[0o133, 0o175, 0o107, 0o101]);
}
#[test]
fn decode_matches_all_archs_6_15() {
    assert_decode_matches_all_archs::<6, 15>(&[0o42631, 0o47245, 0o56507, 0o73363, 0o77267, 0o64537]);
}
#[test]
fn decode_matches_all_archs_7_7() {
    assert_decode_matches_all_archs::<7, 7>(&[0o155, 0o117, 0o123, 0o161, 0o127, 0o133, 0o145]);
}
#[test]
fn decode_matches_all_archs_8_7() {
    assert_decode_matches_all_archs::<8, 7>(&[0o155, 0o117, 0o123, 0o161, 0o127, 0o133, 0o145, 0o171]);
}

fn assert_decode_path_matches<const RATE: u32, const ORDER: u32>(
    polys: &[u16],
    msg_len: usize,
    seed: u64,
    path: ForcedPath,
    hard: bool,
    clean: bool,
) {
    let mut rng = Rng::new(seed);
    let mut msg = vec![0u8; msg_len];
    rng.fill(&mut msg);

    let mut enc = Encoder::new(RATE, ORDER, polys);
    let enc_bits = enc.encode_len(msg_len);
    let mut encoded = vec![0u8; enc_bits.div_ceil(8)];
    enc.encode(&msg, &mut encoded).unwrap();

    if !clean {
        flip_with_interval(&mut encoded, enc_bits, RATE, ORDER, &mut rng);
    }

    let mut simd_out = vec![0u8; msg_len];
    let mut simd = SimdDecoder::<RATE, ORDER>::new(polys).with_path(Some(path));

    if hard {
        simd.decode_hard(&encoded, enc_bits, &mut simd_out).unwrap();
    } else {
        let mut soft = vec![0u8; enc_bits];
        for (i, s) in soft.iter_mut().enumerate() {
            *s = if encoded[i / 8] & (0x80 >> (i % 8)) != 0 {
                255
            } else {
                0
            };
        }
        simd.decode_soft(&soft, &mut simd_out).unwrap();
    }

    let mode = if hard { "hard" } else { "soft" };
    assert_eq!(
        &simd_out, &msg,
        "SIMD decode wrong: rate={RATE} order={ORDER} len={msg_len} mode={mode} \
         clean={clean} seed={seed} path={path:?}"
    );
}

fn assert_decode_path_matches_all<const RATE: u32, const ORDER: u32>(polys: &[u16], path: ForcedPath) {
    for clean in [false, true] {
        for hard in [false, true] {
            for (msg_len, seeds) in [(256usize, 32u64), (1500usize, 8u64)] {
                for seed in 1..=seeds {
                    assert_decode_path_matches::<RATE, ORDER>(polys, msg_len, seed, path, clean, hard);
                }
            }
        }
    }
}

#[test]
fn path_oct_lookup_avx512() {
    assert_decode_path_matches_all::<2, 6>(&[0o65, 0o57], ForcedPath::OctLookupAvx512);
    assert_decode_path_matches_all::<2, 7>(&[0o155, 0o117], ForcedPath::OctLookupAvx512);
    assert_decode_path_matches_all::<2, 9>(&[0o657, 0o435], ForcedPath::OctLookupAvx512);
    assert_decode_path_matches_all::<3, 9>(&[0o755, 0o633, 0o447], ForcedPath::OctLookupAvx512);
    assert_decode_path_matches_all::<4, 7>(&[0o133, 0o175, 0o107, 0o101], ForcedPath::OctLookupAvx512);
    assert_decode_path_matches_all::<6, 15>(&[0o42631, 0o47245, 0o56507, 0o73363, 0o77267, 0o64537], ForcedPath::OctLookupAvx512);
    assert_decode_path_matches_all::<7, 7>(&[0o155, 0o117, 0o123, 0o161, 0o127, 0o133, 0o145], ForcedPath::OctLookupAvx512);
    assert_decode_path_matches_all::<8, 7>(&[0o155, 0o117, 0o123, 0o161, 0o127, 0o133, 0o145, 0o171], ForcedPath::OctLookupAvx512);
}

#[test]
fn path_oct_lookup_avx2() {
    assert_decode_path_matches_all::<2, 5>(&[0o27, 0o23], ForcedPath::OctLookupAvx2);
    assert_decode_path_matches_all::<2, 6>(&[0o65, 0o57], ForcedPath::OctLookupAvx2);
    assert_decode_path_matches_all::<2, 7>(&[0o155, 0o117], ForcedPath::OctLookupAvx2);
    assert_decode_path_matches_all::<2, 9>(&[0o657, 0o435], ForcedPath::OctLookupAvx2);
    assert_decode_path_matches_all::<3, 9>(&[0o755, 0o633, 0o447], ForcedPath::OctLookupAvx2);
    assert_decode_path_matches_all::<4, 7>(&[0o133, 0o175, 0o107, 0o101], ForcedPath::OctLookupAvx2);
    assert_decode_path_matches_all::<6, 15>(&[0o42631, 0o47245, 0o56507, 0o73363, 0o77267, 0o64537], ForcedPath::OctLookupAvx2);
    assert_decode_path_matches_all::<7, 7>(&[0o155, 0o117, 0o123, 0o161, 0o127, 0o133, 0o145], ForcedPath::OctLookupAvx2);
    assert_decode_path_matches_all::<8, 7>(&[0o155, 0o117, 0o123, 0o161, 0o127, 0o133, 0o145, 0o171], ForcedPath::OctLookupAvx2);
}

#[test]
fn path_oct_lookup_sse() {
    assert_decode_path_matches_all::<2, 4>(&[0o17, 0o13], ForcedPath::OctLookupSse41);
    assert_decode_path_matches_all::<2, 5>(&[0o27, 0o23], ForcedPath::OctLookupSse41);
    assert_decode_path_matches_all::<2, 6>(&[0o65, 0o57], ForcedPath::OctLookupSse41);
    assert_decode_path_matches_all::<2, 7>(&[0o155, 0o117], ForcedPath::OctLookupSse41);
    assert_decode_path_matches_all::<2, 9>(&[0o657, 0o435], ForcedPath::OctLookupSse41);
    assert_decode_path_matches_all::<3, 9>(&[0o755, 0o633, 0o447], ForcedPath::OctLookupSse41);
    assert_decode_path_matches_all::<4, 7>(&[0o133, 0o175, 0o107, 0o101], ForcedPath::OctLookupSse41);
    assert_decode_path_matches_all::<6, 15>(&[0o42631, 0o47245, 0o56507, 0o73363, 0o77267, 0o64537], ForcedPath::OctLookupSse41);
    assert_decode_path_matches_all::<7, 7>(&[0o155, 0o117, 0o123, 0o161, 0o127, 0o133, 0o145], ForcedPath::OctLookupSse41);
    assert_decode_path_matches_all::<8, 7>(&[0o155, 0o117, 0o123, 0o161, 0o127, 0o133, 0o145, 0o171], ForcedPath::OctLookupSse41);
}

#[test]
fn path_oct_lookup_128() {
    assert_decode_path_matches_all::<2, 4>(&[0o17, 0o13], ForcedPath::OctLookup128);
    assert_decode_path_matches_all::<2, 5>(&[0o27, 0o23], ForcedPath::OctLookup128);
    assert_decode_path_matches_all::<2, 6>(&[0o65, 0o57], ForcedPath::OctLookup128);
    assert_decode_path_matches_all::<2, 7>(&[0o155, 0o117], ForcedPath::OctLookup128);
    assert_decode_path_matches_all::<2, 9>(&[0o657, 0o435], ForcedPath::OctLookup128);
    assert_decode_path_matches_all::<3, 9>(&[0o755, 0o633, 0o447], ForcedPath::OctLookup128);
    assert_decode_path_matches_all::<4, 7>(&[0o133, 0o175, 0o107, 0o101], ForcedPath::OctLookup128);
    assert_decode_path_matches_all::<6, 15>(&[0o42631, 0o47245, 0o56507, 0o73363, 0o77267, 0o64537], ForcedPath::OctLookup128);
    assert_decode_path_matches_all::<7, 7>(&[0o155, 0o117, 0o123, 0o161, 0o127, 0o133, 0o145], ForcedPath::OctLookup128);
    assert_decode_path_matches_all::<8, 7>(&[0o155, 0o117, 0o123, 0o161, 0o127, 0o133, 0o145, 0o171], ForcedPath::OctLookup128);
}

#[test]
fn path_shuffle_avx512() {
    assert_decode_path_matches_all::<2, 6>(&[0o65, 0o57], ForcedPath::ShuffleAvx512);
    assert_decode_path_matches_all::<2, 7>(&[0o155, 0o117], ForcedPath::ShuffleAvx512);
    assert_decode_path_matches_all::<2, 9>(&[0o657, 0o435], ForcedPath::ShuffleAvx512);
    assert_decode_path_matches_all::<2, 11>(&[0o4335, 0o5723], ForcedPath::ShuffleAvx512);
    assert_decode_path_matches_all::<2, 13>(&[0o21645, 0o35661], ForcedPath::ShuffleAvx512);
    assert_decode_path_matches_all::<3, 9>(&[0o755, 0o633, 0o447], ForcedPath::ShuffleAvx512);
}

#[test]
fn path_shuffle_avx2() {
    assert_decode_path_matches_all::<2, 5>(&[0o27, 0o23], ForcedPath::ShuffleAvx2);
    assert_decode_path_matches_all::<2, 6>(&[0o65, 0o57], ForcedPath::ShuffleAvx2);
    assert_decode_path_matches_all::<2, 7>(&[0o155, 0o117], ForcedPath::ShuffleAvx2);
    assert_decode_path_matches_all::<2, 9>(&[0o657, 0o435], ForcedPath::ShuffleAvx2);
    assert_decode_path_matches_all::<2, 11>(&[0o4335, 0o5723], ForcedPath::ShuffleAvx2);
    assert_decode_path_matches_all::<2, 13>(&[0o21645, 0o35661], ForcedPath::ShuffleAvx2);
    assert_decode_path_matches_all::<3, 9>(&[0o755, 0o633, 0o447], ForcedPath::ShuffleAvx2);
}

#[test]
fn path_shuffle_sse() {
    assert_decode_path_matches_all::<2, 4>(&[0o17, 0o13], ForcedPath::ShuffleSse41);
    assert_decode_path_matches_all::<2, 5>(&[0o27, 0o23], ForcedPath::ShuffleSse41);
    assert_decode_path_matches_all::<2, 6>(&[0o65, 0o57], ForcedPath::ShuffleSse41);
    assert_decode_path_matches_all::<2, 7>(&[0o155, 0o117], ForcedPath::ShuffleSse41);
    assert_decode_path_matches_all::<2, 9>(&[0o657, 0o435], ForcedPath::ShuffleSse41);
    assert_decode_path_matches_all::<2, 11>(&[0o4335, 0o5723], ForcedPath::ShuffleSse41);
    assert_decode_path_matches_all::<2, 13>(&[0o21645, 0o35661], ForcedPath::ShuffleSse41);
    assert_decode_path_matches_all::<3, 9>(&[0o755, 0o633, 0o447], ForcedPath::ShuffleSse41);
}

#[test]
fn path_shuffle_128() {
    assert_decode_path_matches_all::<2, 4>(&[0o17, 0o13], ForcedPath::Shuffle128);
    assert_decode_path_matches_all::<2, 5>(&[0o27, 0o23], ForcedPath::Shuffle128);
    assert_decode_path_matches_all::<2, 6>(&[0o65, 0o57], ForcedPath::Shuffle128);
    assert_decode_path_matches_all::<2, 7>(&[0o155, 0o117], ForcedPath::Shuffle128);
    assert_decode_path_matches_all::<2, 9>(&[0o657, 0o435], ForcedPath::Shuffle128);
    assert_decode_path_matches_all::<2, 11>(&[0o4335, 0o5723], ForcedPath::Shuffle128);
    assert_decode_path_matches_all::<2, 13>(&[0o21645, 0o35661], ForcedPath::Shuffle128);
    assert_decode_path_matches_all::<3, 9>(&[0o755, 0o633, 0o447], ForcedPath::Shuffle128);
}

#[test]
fn path_register_avx512() {
    assert_decode_path_matches_all::<2, 7>(&[0o155, 0o117], ForcedPath::RegisterAvx512);
    assert_decode_path_matches_all::<2, 8>(&[0o367, 0o225], ForcedPath::RegisterAvx512);
    assert_decode_path_matches_all::<2, 9>(&[0o657, 0o435], ForcedPath::RegisterAvx512);
    assert_decode_path_matches_all::<2, 10>(&[0o1627, 0o1063], ForcedPath::RegisterAvx512);
}

#[test]
fn path_register_avx2() {
    assert_decode_path_matches_all::<2, 6>(&[0o65, 0o57], ForcedPath::RegisterAvx2);
    assert_decode_path_matches_all::<2, 7>(&[0o155, 0o117], ForcedPath::RegisterAvx2);
    assert_decode_path_matches_all::<2, 8>(&[0o367, 0o225], ForcedPath::RegisterAvx2);
    assert_decode_path_matches_all::<2, 9>(&[0o657, 0o435], ForcedPath::RegisterAvx2);
}

#[test]
fn path_register_sse() {
    assert_decode_path_matches_all::<2, 5>(&[0o27, 0o23], ForcedPath::RegisterSse41);
    assert_decode_path_matches_all::<2, 6>(&[0o65, 0o57], ForcedPath::RegisterSse41);
    assert_decode_path_matches_all::<2, 7>(&[0o155, 0o117], ForcedPath::RegisterSse41);
    assert_decode_path_matches_all::<2, 8>(&[0o367, 0o225], ForcedPath::RegisterSse41);
}

#[test]
fn path_register_128() {
    assert_decode_path_matches_all::<2, 5>(&[0o27, 0o23], ForcedPath::Register128);
    assert_decode_path_matches_all::<2, 6>(&[0o65, 0o57], ForcedPath::Register128);
    assert_decode_path_matches_all::<2, 7>(&[0o155, 0o117], ForcedPath::Register128);
    assert_decode_path_matches_all::<2, 8>(&[0o367, 0o225], ForcedPath::Register128);
}

fn assert_simd_matches_scalar_noise<const RATE: u32, const ORDER: u32>(
    polys: &[u16],
    path: Option<ForcedPath>,
    eb_n0_db: f64,
    bytes: usize,
    hard: bool,
) {
    const MIN_ERRS: usize = 8000;
    let (volt, bit_energy) = bpsk_params(RATE);

    let mut msg = vec![0u8; bytes];
    let mut bench = Testbench::new(RATE, ORDER, polys, bytes);
    let mut channel = vec![0u8; bench.enc_bits()];
    let mut scalar_out = vec![0u8; bytes];
    let mut simd_out = vec![0u8; bytes];
    let mut rng = Rng::new(0x1234_5678_9ABC_DEF0);
    let mut scalar = Decoder::new(RATE, ORDER, polys);
    let mut simd = SimdDecoder::<RATE, ORDER>::new(polys).with_path(path);

    rng.fill(&mut msg);

    bench.build_noise(eb_n0_db, bit_energy, &mut rng);
    let uncoded_flips = bench.bpsk_with_noise_soft(&msg, volt, &mut channel);

    if hard {
        let enc_bits = bench.enc_bits();
        let mut encoded = vec![0u8; enc_bits.div_ceil(8)];
        for (i, &s) in channel.iter().enumerate() {
            if s >= 128 {
                encoded[i / 8] |= 0x80 >> (i % 8);
            }
        }
        scalar.decode_hard(&encoded, enc_bits, &mut scalar_out).unwrap();
        simd.decode_hard(&encoded, enc_bits, &mut simd_out).unwrap();
    } else {
        scalar.decode_soft(&channel, &mut scalar_out).unwrap();
        simd.decode_soft(&channel, &mut simd_out).unwrap();
    }

    assert!(
        uncoded_flips >= MIN_ERRS,
        "{RATE}/{ORDER} {path:?}: only {uncoded_flips} uncoded errors at {eb_n0_db}dB over {bytes}B. Minimum of \
         {MIN_ERRS} error events required. Lower Eb/N0 or raise bytes."
    );

    let mode = if hard { "hard" } else { "soft" };
    assert_eq!(
        &scalar_out, &simd_out,
        "{RATE}/{ORDER} {path:?} {mode}: SIMD output differs from scalar at {eb_n0_db}dB over {bytes}B."
    );
}

#[test]
fn simd_matches_scalar_noise_dispatch_2_5() {
    assert_simd_matches_scalar_noise::<2, 5>(&[0o027, 0o023], None, 3.0, 300_000, false);
}

#[test]
fn simd_matches_scalar_noise_oct_lookup_2_5() {
    assert_simd_matches_scalar_noise::<2, 5>(&[0o027, 0o023], Some(ForcedPath::OctLookupAvx2), 3.0, 300_000, false);
    assert_simd_matches_scalar_noise::<2, 5>(&[0o027, 0o023], Some(ForcedPath::OctLookupSse41), 3.0, 300_000, false);
    assert_simd_matches_scalar_noise::<2, 5>(&[0o027, 0o023], Some(ForcedPath::OctLookup128), 3.0, 300_000, false);
}

#[test]
fn simd_matches_scalar_noise_shuffle_2_5() {
    assert_simd_matches_scalar_noise::<2, 5>(&[0o027, 0o023], Some(ForcedPath::ShuffleAvx2), 3.0, 300_000, false);
    assert_simd_matches_scalar_noise::<2, 5>(&[0o027, 0o023], Some(ForcedPath::ShuffleSse41), 3.0, 300_000, false);
    assert_simd_matches_scalar_noise::<2, 5>(&[0o027, 0o023], Some(ForcedPath::Shuffle128), 3.0, 300_000, false);
}

#[test]
fn simd_matches_scalar_noise_register_2_5() {
    assert_simd_matches_scalar_noise::<2, 5>(&[0o027, 0o023], Some(ForcedPath::RegisterSse41), 3.0, 300_000, false);
    assert_simd_matches_scalar_noise::<2, 5>(&[0o027, 0o023], Some(ForcedPath::Register128), 3.0, 300_000, false);
}

#[test]
fn simd_matches_scalar_noise_dispatch_2_6() {
    assert_simd_matches_scalar_noise::<2, 6>(&[0o065, 0o057], None, 3.0, 300_000, false);
}

#[test]
fn simd_matches_scalar_noise_oct_lookup_2_6() {
    assert_simd_matches_scalar_noise::<2, 6>(&[0o065, 0o057], Some(ForcedPath::OctLookupAvx512), 3.0, 300_000, false);
    assert_simd_matches_scalar_noise::<2, 6>(&[0o065, 0o057], Some(ForcedPath::OctLookupAvx2), 3.0, 300_000, false);
    assert_simd_matches_scalar_noise::<2, 6>(&[0o065, 0o057], Some(ForcedPath::OctLookupSse41), 3.0, 300_000, false);
    assert_simd_matches_scalar_noise::<2, 6>(&[0o065, 0o057], Some(ForcedPath::OctLookup128), 3.0, 300_000, false);
}

#[test]
fn simd_matches_scalar_noise_shuffle_2_6() {
    assert_simd_matches_scalar_noise::<2, 6>(&[0o065, 0o057], Some(ForcedPath::ShuffleAvx512), 3.0, 300_000, false);
    assert_simd_matches_scalar_noise::<2, 6>(&[0o065, 0o057], Some(ForcedPath::ShuffleAvx2), 3.0, 300_000, false);
    assert_simd_matches_scalar_noise::<2, 6>(&[0o065, 0o057], Some(ForcedPath::ShuffleSse41), 3.0, 300_000, false);
    assert_simd_matches_scalar_noise::<2, 6>(&[0o065, 0o057], Some(ForcedPath::Shuffle128), 3.0, 300_000, false);
}

#[test]
fn simd_matches_scalar_noise_permute_2_6() {
    assert_simd_matches_scalar_noise::<2, 6>(&[0o065, 0o057], Some(ForcedPath::PermuteAvx512), 3.0, 300_000, false);
}

#[test]
fn simd_matches_scalar_noise_register_2_6() {
    assert_simd_matches_scalar_noise::<2, 6>(&[0o065, 0o057], Some(ForcedPath::RegisterAvx2), 3.0, 300_000, false);
    assert_simd_matches_scalar_noise::<2, 6>(&[0o065, 0o057], Some(ForcedPath::RegisterSse41), 3.0, 300_000, false);
    assert_simd_matches_scalar_noise::<2, 6>(&[0o065, 0o057], Some(ForcedPath::Register128), 3.0, 300_000, false);
}

#[test]
fn simd_matches_scalar_noise_dispatch_2_7() {
    assert_simd_matches_scalar_noise::<2, 7>(&[0o155, 0o117], None, 2.5, 300_000, false);
}

#[test]
fn simd_matches_scalar_noise_oct_lookup_2_7() {
    assert_simd_matches_scalar_noise::<2, 7>(&[0o155, 0o117], Some(ForcedPath::OctLookupAvx512), 2.5, 300_000, false);
    assert_simd_matches_scalar_noise::<2, 7>(&[0o155, 0o117], Some(ForcedPath::OctLookupAvx2), 2.5, 300_000, false);
    assert_simd_matches_scalar_noise::<2, 7>(&[0o155, 0o117], Some(ForcedPath::OctLookupSse41), 2.5, 300_000, false);
    assert_simd_matches_scalar_noise::<2, 7>(&[0o155, 0o117], Some(ForcedPath::OctLookup128), 2.5, 300_000, false);
}

#[test]
fn simd_matches_scalar_noise_shuffle_2_7() {
    assert_simd_matches_scalar_noise::<2, 7>(&[0o155, 0o117], Some(ForcedPath::ShuffleAvx512), 2.5, 300_000, false);
    assert_simd_matches_scalar_noise::<2, 7>(&[0o155, 0o117], Some(ForcedPath::ShuffleAvx2), 2.5, 300_000, false);
    assert_simd_matches_scalar_noise::<2, 7>(&[0o155, 0o117], Some(ForcedPath::ShuffleSse41), 2.5, 300_000, false);
    assert_simd_matches_scalar_noise::<2, 7>(&[0o155, 0o117], Some(ForcedPath::Shuffle128), 2.5, 300_000, false);
}

#[test]
fn simd_matches_scalar_noise_permute_2_7() {
    assert_simd_matches_scalar_noise::<2, 7>(&[0o155, 0o117], Some(ForcedPath::PermuteAvx512), 2.5, 300_000, false);
}

#[test]
fn simd_matches_scalar_noise_register_2_7() {
    assert_simd_matches_scalar_noise::<2, 7>(&[0o155, 0o117], Some(ForcedPath::RegisterAvx512), 2.5, 300_000, false);
    assert_simd_matches_scalar_noise::<2, 7>(&[0o155, 0o117], Some(ForcedPath::RegisterAvx2), 2.5, 300_000, false);
    assert_simd_matches_scalar_noise::<2, 7>(&[0o155, 0o117], Some(ForcedPath::RegisterSse41), 2.5, 300_000, false);
    assert_simd_matches_scalar_noise::<2, 7>(&[0o155, 0o117], Some(ForcedPath::Register128), 2.5, 300_000, false);
}

#[test]
fn simd_matches_scalar_noise_hard_dispatch_2_7() {
    assert_simd_matches_scalar_noise::<2, 7>(&[0o155, 0o117], None, 4.0, 300_000, true);
}

#[test]
fn simd_matches_scalar_noise_hard_oct_lookup_2_7() {
    assert_simd_matches_scalar_noise::<2, 7>(&[0o155, 0o117], Some(ForcedPath::OctLookupAvx512), 4.0, 300_000, true);
    assert_simd_matches_scalar_noise::<2, 7>(&[0o155, 0o117], Some(ForcedPath::OctLookupAvx2), 4.0, 300_000, true);
    assert_simd_matches_scalar_noise::<2, 7>(&[0o155, 0o117], Some(ForcedPath::OctLookupSse41), 4.0, 300_000, true);
    assert_simd_matches_scalar_noise::<2, 7>(&[0o155, 0o117], Some(ForcedPath::OctLookup128), 4.0, 300_000, true);
}

#[test]
fn simd_matches_scalar_noise_hard_shuffle_2_7() {
    assert_simd_matches_scalar_noise::<2, 7>(&[0o155, 0o117], Some(ForcedPath::ShuffleAvx512), 4.0, 300_000, true);
    assert_simd_matches_scalar_noise::<2, 7>(&[0o155, 0o117], Some(ForcedPath::ShuffleAvx2), 4.0, 300_000, true);
    assert_simd_matches_scalar_noise::<2, 7>(&[0o155, 0o117], Some(ForcedPath::ShuffleSse41), 4.0, 300_000, true);
    assert_simd_matches_scalar_noise::<2, 7>(&[0o155, 0o117], Some(ForcedPath::Shuffle128), 4.0, 300_000, true);
}

#[test]
fn simd_matches_scalar_noise_hard_permute_2_7() {
    assert_simd_matches_scalar_noise::<2, 7>(&[0o155, 0o117], Some(ForcedPath::PermuteAvx512), 4.0, 300_000, true);
}

#[test]
fn simd_matches_scalar_noise_hard_register_2_7() {
    assert_simd_matches_scalar_noise::<2, 7>(&[0o155, 0o117], Some(ForcedPath::RegisterAvx512), 4.0, 300_000, true);
    assert_simd_matches_scalar_noise::<2, 7>(&[0o155, 0o117], Some(ForcedPath::RegisterAvx2), 4.0, 300_000, true);
    assert_simd_matches_scalar_noise::<2, 7>(&[0o155, 0o117], Some(ForcedPath::RegisterSse41), 4.0, 300_000, true);
    assert_simd_matches_scalar_noise::<2, 7>(&[0o155, 0o117], Some(ForcedPath::Register128), 4.0, 300_000, true);
}

#[test]
fn simd_matches_scalar_noise_dispatch_2_8() {
    assert_simd_matches_scalar_noise::<2, 8>(&[0o367, 0o225], None, 2.5, 200_000, false);
}

#[test]
fn simd_matches_scalar_noise_oct_lookup_2_8() {
    assert_simd_matches_scalar_noise::<2, 8>(&[0o367, 0o225], Some(ForcedPath::OctLookupAvx512), 2.5, 200_000, false);
    assert_simd_matches_scalar_noise::<2, 8>(&[0o367, 0o225], Some(ForcedPath::OctLookupAvx2), 2.5, 200_000, false);
    assert_simd_matches_scalar_noise::<2, 8>(&[0o367, 0o225], Some(ForcedPath::OctLookupSse41), 2.5, 200_000, false);
    assert_simd_matches_scalar_noise::<2, 8>(&[0o367, 0o225], Some(ForcedPath::OctLookup128), 2.5, 200_000, false);
}

#[test]
fn simd_matches_scalar_noise_shuffle_2_8() {
    assert_simd_matches_scalar_noise::<2, 8>(&[0o367, 0o225], Some(ForcedPath::ShuffleAvx512), 2.5, 200_000, false);
    assert_simd_matches_scalar_noise::<2, 8>(&[0o367, 0o225], Some(ForcedPath::ShuffleAvx2), 2.5, 200_000, false);
    assert_simd_matches_scalar_noise::<2, 8>(&[0o367, 0o225], Some(ForcedPath::ShuffleSse41), 2.5, 200_000, false);
    assert_simd_matches_scalar_noise::<2, 8>(&[0o367, 0o225], Some(ForcedPath::Shuffle128), 2.5, 200_000, false);
}

#[test]
fn simd_matches_scalar_noise_permute_2_8() {
    assert_simd_matches_scalar_noise::<2, 8>(&[0o367, 0o225], Some(ForcedPath::PermuteAvx512), 2.5, 200_000, false);
}

#[test]
fn simd_matches_scalar_noise_register_2_8() {
    assert_simd_matches_scalar_noise::<2, 8>(&[0o367, 0o225], Some(ForcedPath::RegisterAvx512), 2.5, 200_000, false);
    assert_simd_matches_scalar_noise::<2, 8>(&[0o367, 0o225], Some(ForcedPath::RegisterAvx2), 2.5, 200_000, false);
    assert_simd_matches_scalar_noise::<2, 8>(&[0o367, 0o225], Some(ForcedPath::RegisterSse41), 2.5, 200_000, false);
    assert_simd_matches_scalar_noise::<2, 8>(&[0o367, 0o225], Some(ForcedPath::Register128), 2.5, 200_000, false);
}

#[test]
fn simd_matches_scalar_noise_dispatch_2_9() {
    assert_simd_matches_scalar_noise::<2, 9>(&[0o657, 0o435], None, 2.0, 100_000, false);
}

#[test]
fn simd_matches_scalar_noise_oct_lookup_2_9() {
    assert_simd_matches_scalar_noise::<2, 9>(&[0o657, 0o435], Some(ForcedPath::OctLookupAvx512), 2.0, 100_000, false);
    assert_simd_matches_scalar_noise::<2, 9>(&[0o657, 0o435], Some(ForcedPath::OctLookupAvx2), 2.0, 100_000, false);
    assert_simd_matches_scalar_noise::<2, 9>(&[0o657, 0o435], Some(ForcedPath::OctLookupSse41), 2.0, 100_000, false);
    assert_simd_matches_scalar_noise::<2, 9>(&[0o657, 0o435], Some(ForcedPath::OctLookup128), 2.0, 100_000, false);
}

#[test]
fn simd_matches_scalar_noise_shuffle_2_9() {
    assert_simd_matches_scalar_noise::<2, 9>(&[0o657, 0o435], Some(ForcedPath::ShuffleAvx512), 2.0, 100_000, false);
    assert_simd_matches_scalar_noise::<2, 9>(&[0o657, 0o435], Some(ForcedPath::ShuffleAvx2), 2.0, 100_000, false);
    assert_simd_matches_scalar_noise::<2, 9>(&[0o657, 0o435], Some(ForcedPath::ShuffleSse41), 2.0, 100_000, false);
    assert_simd_matches_scalar_noise::<2, 9>(&[0o657, 0o435], Some(ForcedPath::Shuffle128), 2.0, 100_000, false);
}

#[test]
fn simd_matches_scalar_noise_permute_2_9() {
    assert_simd_matches_scalar_noise::<2, 9>(&[0o657, 0o435], Some(ForcedPath::PermuteAvx512), 2.0, 100_000, false);
}

#[test]
fn simd_matches_scalar_noise_register_2_9() {
    assert_simd_matches_scalar_noise::<2, 9>(&[0o657, 0o435], Some(ForcedPath::RegisterAvx512), 2.0, 100_000, false);
    assert_simd_matches_scalar_noise::<2, 9>(&[0o657, 0o435], Some(ForcedPath::RegisterAvx2), 2.0, 100_000, false);
}

#[test]
fn simd_matches_scalar_noise_hard_dispatch_2_9() {
    assert_simd_matches_scalar_noise::<2, 9>(&[0o657, 0o435], None, 3.5, 100_000, true);
}

#[test]
fn simd_matches_scalar_noise_hard_oct_lookup_2_9() {
    assert_simd_matches_scalar_noise::<2, 9>(&[0o657, 0o435], Some(ForcedPath::OctLookupAvx512), 3.5, 100_000, true);
    assert_simd_matches_scalar_noise::<2, 9>(&[0o657, 0o435], Some(ForcedPath::OctLookupAvx2), 3.5, 100_000, true);
    assert_simd_matches_scalar_noise::<2, 9>(&[0o657, 0o435], Some(ForcedPath::OctLookupSse41), 3.5, 100_000, true);
    assert_simd_matches_scalar_noise::<2, 9>(&[0o657, 0o435], Some(ForcedPath::OctLookup128), 3.5, 100_000, true);
}

#[test]
fn simd_matches_scalar_noise_hard_shuffle_2_9() {
    assert_simd_matches_scalar_noise::<2, 9>(&[0o657, 0o435], Some(ForcedPath::ShuffleAvx512), 3.5, 100_000, true);
    assert_simd_matches_scalar_noise::<2, 9>(&[0o657, 0o435], Some(ForcedPath::ShuffleAvx2), 3.5, 100_000, true);
    assert_simd_matches_scalar_noise::<2, 9>(&[0o657, 0o435], Some(ForcedPath::ShuffleSse41), 3.5, 100_000, true);
    assert_simd_matches_scalar_noise::<2, 9>(&[0o657, 0o435], Some(ForcedPath::Shuffle128), 3.5, 100_000, true);
}

#[test]
fn simd_matches_scalar_noise_hard_permute_2_9() {
    assert_simd_matches_scalar_noise::<2, 9>(&[0o657, 0o435], Some(ForcedPath::PermuteAvx512), 3.5, 100_000, true);
}

#[test]
fn simd_matches_scalar_noise_hard_register_2_9() {
    assert_simd_matches_scalar_noise::<2, 9>(&[0o657, 0o435], Some(ForcedPath::RegisterAvx512), 3.5, 100_000, true);
    assert_simd_matches_scalar_noise::<2, 9>(&[0o657, 0o435], Some(ForcedPath::RegisterAvx2), 3.5, 100_000, true);
}

#[test]
fn simd_matches_scalar_noise_dispatch_2_15() {
    assert_simd_matches_scalar_noise::<2, 15>(&[0o56711, 0o75063], None, 1.2, 5_000, false);
}

#[test]
fn simd_matches_scalar_noise_oct_lookup_2_15() {
    assert_simd_matches_scalar_noise::<2, 15>(&[0o56711, 0o75063], Some(ForcedPath::OctLookupAvx512), 1.2, 5_000, false);
    assert_simd_matches_scalar_noise::<2, 15>(&[0o56711, 0o75063], Some(ForcedPath::OctLookupAvx2), 1.2, 5_000, false);
    assert_simd_matches_scalar_noise::<2, 15>(&[0o56711, 0o75063], Some(ForcedPath::OctLookupSse41), 1.2, 5_000, false);
    assert_simd_matches_scalar_noise::<2, 15>(&[0o56711, 0o75063], Some(ForcedPath::OctLookup128), 1.2, 5_000, false);
}

#[test]
fn simd_matches_scalar_noise_permute_2_15() {
    assert_simd_matches_scalar_noise::<2, 15>(&[0o56711, 0o75063], Some(ForcedPath::PermuteAvx512), 1.2, 5_000, false);
}

#[test]
fn simd_matches_scalar_noise_dispatch_3_7() {
    assert_simd_matches_scalar_noise::<3, 7>(&[0o175, 0o145, 0o133], None, 2.5, 300_000, false);
}

#[test]
fn simd_matches_scalar_noise_oct_lookup_3_7() {
    assert_simd_matches_scalar_noise::<3, 7>(&[0o175, 0o145, 0o133], Some(ForcedPath::OctLookupAvx512), 2.5, 300_000, false);
    assert_simd_matches_scalar_noise::<3, 7>(&[0o175, 0o145, 0o133], Some(ForcedPath::OctLookupAvx2), 2.5, 300_000, false);
    assert_simd_matches_scalar_noise::<3, 7>(&[0o175, 0o145, 0o133], Some(ForcedPath::OctLookupSse41), 2.5, 300_000, false);
    assert_simd_matches_scalar_noise::<3, 7>(&[0o175, 0o145, 0o133], Some(ForcedPath::OctLookup128), 2.5, 300_000, false);
}

#[test]
fn simd_matches_scalar_noise_shuffle_3_7() {
    assert_simd_matches_scalar_noise::<3, 7>(&[0o175, 0o145, 0o133], Some(ForcedPath::ShuffleAvx512), 2.5, 300_000, false);
    assert_simd_matches_scalar_noise::<3, 7>(&[0o175, 0o145, 0o133], Some(ForcedPath::ShuffleAvx2), 2.5, 300_000, false);
    assert_simd_matches_scalar_noise::<3, 7>(&[0o175, 0o145, 0o133], Some(ForcedPath::ShuffleSse41), 2.5, 300_000, false);
    assert_simd_matches_scalar_noise::<3, 7>(&[0o175, 0o145, 0o133], Some(ForcedPath::Shuffle128), 2.5, 300_000, false);
}

#[test]
fn simd_matches_scalar_noise_permute_3_7() {
    assert_simd_matches_scalar_noise::<3, 7>(&[0o175, 0o145, 0o133], Some(ForcedPath::PermuteAvx512), 2.5, 300_000, false);
}

#[test]
fn simd_matches_scalar_noise_register_3_7() {
    assert_simd_matches_scalar_noise::<3, 7>(&[0o175, 0o145, 0o133], Some(ForcedPath::RegisterAvx512), 2.5, 300_000, false);
    assert_simd_matches_scalar_noise::<3, 7>(&[0o175, 0o145, 0o133], Some(ForcedPath::RegisterAvx2), 2.5, 300_000, false);
}

#[test]
fn simd_matches_scalar_noise_dispatch_3_9() {
    assert_simd_matches_scalar_noise::<3, 9>(&[0o755, 0o633, 0o447], None, 2.0, 100_000, false);
}

#[test]
fn simd_matches_scalar_noise_oct_lookup_3_9() {
    assert_simd_matches_scalar_noise::<3, 9>(&[0o755, 0o633, 0o447], Some(ForcedPath::OctLookupAvx512), 2.0, 100_000, false);
    assert_simd_matches_scalar_noise::<3, 9>(&[0o755, 0o633, 0o447], Some(ForcedPath::OctLookupAvx2), 2.0, 100_000, false);
    assert_simd_matches_scalar_noise::<3, 9>(&[0o755, 0o633, 0o447], Some(ForcedPath::OctLookupSse41), 2.0, 100_000, false);
    assert_simd_matches_scalar_noise::<3, 9>(&[0o755, 0o633, 0o447], Some(ForcedPath::OctLookup128), 2.0, 100_000, false);
}

#[test]
fn simd_matches_scalar_noise_shuffle_3_9() {
    assert_simd_matches_scalar_noise::<3, 9>(&[0o755, 0o633, 0o447], Some(ForcedPath::ShuffleAvx512), 2.0, 100_000, false);
    assert_simd_matches_scalar_noise::<3, 9>(&[0o755, 0o633, 0o447], Some(ForcedPath::ShuffleAvx2), 2.0, 100_000, false);
    assert_simd_matches_scalar_noise::<3, 9>(&[0o755, 0o633, 0o447], Some(ForcedPath::ShuffleSse41), 2.0, 100_000, false);
    assert_simd_matches_scalar_noise::<3, 9>(&[0o755, 0o633, 0o447], Some(ForcedPath::Shuffle128), 2.0, 100_000, false);
}

#[test]
fn simd_matches_scalar_noise_permute_3_9() {
    assert_simd_matches_scalar_noise::<3, 9>(&[0o755, 0o633, 0o447], Some(ForcedPath::PermuteAvx512), 2.0, 100_000, false);
}

#[test]
fn simd_matches_scalar_noise_register_3_9() {
    assert_simd_matches_scalar_noise::<3, 9>(&[0o755, 0o633, 0o447], Some(ForcedPath::RegisterAvx512), 2.0, 100_000, false);
    assert_simd_matches_scalar_noise::<3, 9>(&[0o755, 0o633, 0o447], Some(ForcedPath::RegisterAvx2), 2.0, 100_000, false);
}

#[test]
fn simd_matches_scalar_noise_hard_dispatch_3_9() {
    assert_simd_matches_scalar_noise::<3, 9>(&[0o755, 0o633, 0o447], None, 3.5, 100_000, true);
}

#[test]
fn simd_matches_scalar_noise_hard_oct_lookup_3_9() {
    assert_simd_matches_scalar_noise::<3, 9>(&[0o755, 0o633, 0o447], Some(ForcedPath::OctLookupAvx512), 3.5, 100_000, true);
    assert_simd_matches_scalar_noise::<3, 9>(&[0o755, 0o633, 0o447], Some(ForcedPath::OctLookupAvx2), 3.5, 100_000, true);
    assert_simd_matches_scalar_noise::<3, 9>(&[0o755, 0o633, 0o447], Some(ForcedPath::OctLookupSse41), 3.5, 100_000, true);
    assert_simd_matches_scalar_noise::<3, 9>(&[0o755, 0o633, 0o447], Some(ForcedPath::OctLookup128), 3.5, 100_000, true);
}

#[test]
fn simd_matches_scalar_noise_hard_shuffle_3_9() {
    assert_simd_matches_scalar_noise::<3, 9>(&[0o755, 0o633, 0o447], Some(ForcedPath::ShuffleAvx512), 3.5, 100_000, true);
    assert_simd_matches_scalar_noise::<3, 9>(&[0o755, 0o633, 0o447], Some(ForcedPath::ShuffleAvx2), 3.5, 100_000, true);
    assert_simd_matches_scalar_noise::<3, 9>(&[0o755, 0o633, 0o447], Some(ForcedPath::ShuffleSse41), 3.5, 100_000, true);
    assert_simd_matches_scalar_noise::<3, 9>(&[0o755, 0o633, 0o447], Some(ForcedPath::Shuffle128), 3.5, 100_000, true);
}

#[test]
fn simd_matches_scalar_noise_hard_permute_3_9() {
    assert_simd_matches_scalar_noise::<3, 9>(&[0o755, 0o633, 0o447], Some(ForcedPath::PermuteAvx512), 3.5, 100_000, true);
}

#[test]
fn simd_matches_scalar_noise_hard_register_3_9() {
    assert_simd_matches_scalar_noise::<3, 9>(&[0o755, 0o633, 0o447], Some(ForcedPath::RegisterAvx512), 3.5, 100_000, true);
    assert_simd_matches_scalar_noise::<3, 9>(&[0o755, 0o633, 0o447], Some(ForcedPath::RegisterAvx2), 3.5, 100_000, true);
}

#[test]
fn simd_matches_scalar_noise_dispatch_4_7() {
    assert_simd_matches_scalar_noise::<4, 7>(&[0o133, 0o175, 0o107, 0o101], None, 2.0, 150_000, false);
}

#[test]
fn simd_matches_scalar_noise_oct_lookup_4_7() {
    assert_simd_matches_scalar_noise::<4, 7>(&[0o133, 0o175, 0o107, 0o101], Some(ForcedPath::OctLookupAvx512), 2.0, 150_000, false);
    assert_simd_matches_scalar_noise::<4, 7>(&[0o133, 0o175, 0o107, 0o101], Some(ForcedPath::OctLookupAvx2), 2.0, 150_000, false);
    assert_simd_matches_scalar_noise::<4, 7>(&[0o133, 0o175, 0o107, 0o101], Some(ForcedPath::OctLookupSse41), 2.0, 150_000, false);
    assert_simd_matches_scalar_noise::<4, 7>(&[0o133, 0o175, 0o107, 0o101], Some(ForcedPath::OctLookup128), 2.0, 150_000, false);
}

#[test]
fn simd_matches_scalar_noise_permute_4_7() {
    assert_simd_matches_scalar_noise::<4, 7>(&[0o133, 0o175, 0o107, 0o101], Some(ForcedPath::PermuteAvx512), 2.0, 150_000, false);
}

#[test]
fn simd_matches_scalar_noise_dispatch_5_7() {
    assert_simd_matches_scalar_noise::<5, 7>(&[0o175, 0o145, 0o133, 0o117, 0o127], None, 2.0, 150_000, false);
}

#[test]
fn simd_matches_scalar_noise_oct_lookup_5_7() {
    assert_simd_matches_scalar_noise::<5, 7>(&[0o175, 0o145, 0o133, 0o117, 0o127], Some(ForcedPath::OctLookupAvx512), 2.0, 150_000, false);
    assert_simd_matches_scalar_noise::<5, 7>(&[0o175, 0o145, 0o133, 0o117, 0o127], Some(ForcedPath::OctLookupAvx2), 2.0, 150_000, false);
    assert_simd_matches_scalar_noise::<5, 7>(&[0o175, 0o145, 0o133, 0o117, 0o127], Some(ForcedPath::OctLookupSse41), 2.0, 150_000, false);
    assert_simd_matches_scalar_noise::<5, 7>(&[0o175, 0o145, 0o133, 0o117, 0o127], Some(ForcedPath::OctLookup128), 2.0, 150_000, false);
}

#[test]
fn simd_matches_scalar_noise_permute_5_7() {
    assert_simd_matches_scalar_noise::<5, 7>(&[0o175, 0o145, 0o133, 0o117, 0o127], Some(ForcedPath::PermuteAvx512), 2.0, 150_000, false);
}

#[test]
fn simd_matches_scalar_noise_dispatch_6_7() {
    assert_simd_matches_scalar_noise::<6, 7>(&[0o111, 0o127, 0o133, 0o167, 0o173, 0o175], None, 2.0, 100_000, false);
}

#[test]
fn simd_matches_scalar_noise_oct_lookup_6_7() {
    assert_simd_matches_scalar_noise::<6, 7>(&[0o111, 0o127, 0o133, 0o167, 0o173, 0o175], Some(ForcedPath::OctLookupAvx512), 2.0, 100_000, false);
    assert_simd_matches_scalar_noise::<6, 7>(&[0o111, 0o127, 0o133, 0o167, 0o173, 0o175], Some(ForcedPath::OctLookupAvx2), 2.0, 100_000, false);
    assert_simd_matches_scalar_noise::<6, 7>(&[0o111, 0o127, 0o133, 0o167, 0o173, 0o175], Some(ForcedPath::OctLookupSse41), 2.0, 100_000, false);
    assert_simd_matches_scalar_noise::<6, 7>(&[0o111, 0o127, 0o133, 0o167, 0o173, 0o175], Some(ForcedPath::OctLookup128), 2.0, 100_000, false);
}

#[test]
fn simd_matches_scalar_noise_permute_6_7() {
    assert_simd_matches_scalar_noise::<6, 7>(&[0o111, 0o127, 0o133, 0o167, 0o173, 0o175], Some(ForcedPath::PermuteAvx512), 2.0, 100_000, false);
}

#[test]
fn simd_matches_scalar_noise_dispatch_6_15() {
    assert_simd_matches_scalar_noise::<6, 15>(&[0o42631, 0o47245, 0o56507, 0o73363, 0o77267, 0o64537], None, 0.5, 5_000, false);
}

#[test]
fn simd_matches_scalar_noise_oct_lookup_6_15() {
    assert_simd_matches_scalar_noise::<6, 15>(&[0o42631, 0o47245, 0o56507, 0o73363, 0o77267, 0o64537], Some(ForcedPath::OctLookupAvx512), 0.5, 5_000, false);
    assert_simd_matches_scalar_noise::<6, 15>(&[0o42631, 0o47245, 0o56507, 0o73363, 0o77267, 0o64537], Some(ForcedPath::OctLookupAvx2), 0.5, 5_000, false);
    assert_simd_matches_scalar_noise::<6, 15>(&[0o42631, 0o47245, 0o56507, 0o73363, 0o77267, 0o64537], Some(ForcedPath::OctLookupSse41), 0.5, 5_000, false);
    assert_simd_matches_scalar_noise::<6, 15>(&[0o42631, 0o47245, 0o56507, 0o73363, 0o77267, 0o64537], Some(ForcedPath::OctLookup128), 0.5, 5_000, false);
}

#[test]
fn simd_matches_scalar_noise_permute_6_15() {
    assert_simd_matches_scalar_noise::<6, 15>(&[0o42631, 0o47245, 0o56507, 0o73363, 0o77267, 0o64537], Some(ForcedPath::PermuteAvx512), 0.5, 5_000, false);
}

#[test]
fn simd_matches_scalar_noise_hard_dispatch_6_15() {
    assert_simd_matches_scalar_noise::<6, 15>(&[0o42631, 0o47245, 0o56507, 0o73363, 0o77267, 0o64537], None, 1.5, 5_000, true);
}

#[test]
fn simd_matches_scalar_noise_hard_oct_lookup_6_15() {
    assert_simd_matches_scalar_noise::<6, 15>(&[0o42631, 0o47245, 0o56507, 0o73363, 0o77267, 0o64537], Some(ForcedPath::OctLookupAvx512), 1.5, 5_000, true);
    assert_simd_matches_scalar_noise::<6, 15>(&[0o42631, 0o47245, 0o56507, 0o73363, 0o77267, 0o64537], Some(ForcedPath::OctLookupAvx2), 1.5, 5_000, true);
    assert_simd_matches_scalar_noise::<6, 15>(&[0o42631, 0o47245, 0o56507, 0o73363, 0o77267, 0o64537], Some(ForcedPath::OctLookupSse41), 1.5, 5_000, true);
    assert_simd_matches_scalar_noise::<6, 15>(&[0o42631, 0o47245, 0o56507, 0o73363, 0o77267, 0o64537], Some(ForcedPath::OctLookup128), 1.5, 5_000, true);
}

#[test]
fn simd_matches_scalar_noise_hard_permute_6_15() {
    assert_simd_matches_scalar_noise::<6, 15>(&[0o42631, 0o47245, 0o56507, 0o73363, 0o77267, 0o64537], Some(ForcedPath::PermuteAvx512), 1.5, 5_000, true);
}

#[test]
fn simd_matches_scalar_noise_dispatch_7_7() {
    assert_simd_matches_scalar_noise::<7, 7>(&[0o155, 0o117, 0o123, 0o161, 0o127, 0o133, 0o145], None, 2.0, 50_000, false);
}

#[test]
fn simd_matches_scalar_noise_oct_lookup_7_7() {
    assert_simd_matches_scalar_noise::<7, 7>(&[0o155, 0o117, 0o123, 0o161, 0o127, 0o133, 0o145], Some(ForcedPath::OctLookupAvx512), 2.0, 50_000, false);
    assert_simd_matches_scalar_noise::<7, 7>(&[0o155, 0o117, 0o123, 0o161, 0o127, 0o133, 0o145], Some(ForcedPath::OctLookupAvx2), 2.0, 50_000, false);
    assert_simd_matches_scalar_noise::<7, 7>(&[0o155, 0o117, 0o123, 0o161, 0o127, 0o133, 0o145], Some(ForcedPath::OctLookupSse41), 2.0, 50_000, false);
    assert_simd_matches_scalar_noise::<7, 7>(&[0o155, 0o117, 0o123, 0o161, 0o127, 0o133, 0o145], Some(ForcedPath::OctLookup128), 2.0, 50_000, false);
}

#[test]
fn simd_matches_scalar_noise_dispatch_8_7() {
    assert_simd_matches_scalar_noise::<8, 7>(&[0o155, 0o117, 0o123, 0o161, 0o127, 0o133, 0o145, 0o171], None, 2.0, 50_000, false);
}

#[test]
fn simd_matches_scalar_noise_oct_lookup_8_7() {
    assert_simd_matches_scalar_noise::<8, 7>(&[0o155, 0o117, 0o123, 0o161, 0o127, 0o133, 0o145, 0o171], Some(ForcedPath::OctLookupAvx512), 2.0, 50_000, false);
    assert_simd_matches_scalar_noise::<8, 7>(&[0o155, 0o117, 0o123, 0o161, 0o127, 0o133, 0o145, 0o171], Some(ForcedPath::OctLookupAvx2), 2.0, 50_000, false);
    assert_simd_matches_scalar_noise::<8, 7>(&[0o155, 0o117, 0o123, 0o161, 0o127, 0o133, 0o145, 0o171], Some(ForcedPath::OctLookupSse41), 2.0, 50_000, false);
    assert_simd_matches_scalar_noise::<8, 7>(&[0o155, 0o117, 0o123, 0o161, 0o127, 0o133, 0o145, 0o171], Some(ForcedPath::OctLookup128), 2.0, 50_000, false);
}

#[test]
fn path_permute_avx512() {
    assert_decode_path_matches_all::<2, 7>(&[0o155, 0o117], ForcedPath::PermuteAvx512);
    assert_decode_path_matches_all::<2, 9>(&[0o657, 0o435], ForcedPath::PermuteAvx512);
    assert_decode_path_matches_all::<2, 15>(&[0o56711, 0o75063], ForcedPath::PermuteAvx512);
    assert_decode_path_matches_all::<3, 9>(&[0o755, 0o633, 0o447], ForcedPath::PermuteAvx512);
    assert_decode_path_matches_all::<4, 7>(&[0o133, 0o175, 0o107, 0o101], ForcedPath::PermuteAvx512);
    assert_decode_path_matches_all::<6, 15>(&[0o42631, 0o47245, 0o56507, 0o73363, 0o77267, 0o64537], ForcedPath::PermuteAvx512);
}
