//! Bit error rates of the scalar decoder over a noisy channel.

use fec::convolutional::sim::{bit_distance, count_flips, slice_hard, Rng};
use fec::convolutional::{Decoder, Encoder};

/// A channel for one code and message length, with Gaussian noise.
struct Testbench {
    encoder: Encoder,
    encoded: Vec<u8>,
    noise: Vec<f64>,
    enclen_bits: usize,
}

fn next_f64(rng: &mut Rng) -> f64 {
    rng.next_u53() as f64 / (1u64 << 53) as f64
}

fn gaussian(out: &mut [f64], sigma: f64, rng: &mut Rng) {
    let mut i = 0;
    while i < out.len() {
        let (u, v, s) = loop {
            let u = 2.0 * next_f64(rng) - 1.0;
            let v = 2.0 * next_f64(rng) - 1.0;
            let s = u * u + v * v;
            if s > f64::EPSILON && s < 1.0 {
                break (u, v, s);
            }
        };
        let base = ((-2.0 * s.ln()) / s).sqrt();
        out[i] = u * base * sigma;
        if i + 1 < out.len() {
            out[i + 1] = v * base * sigma;
        }
        i += 2;
    }
}

fn sigma_for_eb_n0(eb_n0_db: f64, bpsk_bit_energy: f64) -> f64 {
    (bpsk_bit_energy / (2.0 * 10f64.powf(eb_n0_db / 10.0))).sqrt()
}

fn bpsk_params(rate: u32) -> (f64, f64) {
    let bpsk_voltage = 1.0 / 2f64.sqrt();
    (bpsk_voltage, 2.0 * bpsk_voltage * bpsk_voltage * rate as f64)
}

impl Testbench {
    fn new(rate: u32, order: u32, polys: &[u16], msg_len: usize) -> Testbench {
        let encoder = Encoder::new(rate, order, polys);
        let enclen_bits = encoder.encode_len(msg_len);
        Testbench {
            encoder,
            encoded: vec![0u8; enclen_bits / 8 + 1],
            noise: vec![0.0; enclen_bits],
            enclen_bits,
        }
    }

    fn enc_bits(&self) -> usize {
        self.enclen_bits
    }

    fn build_noise(&mut self, eb_n0_db: f64, bpsk_bit_energy: f64, rng: &mut Rng) {
        let sigma = sigma_for_eb_n0(eb_n0_db, bpsk_bit_energy);
        gaussian(&mut self.noise, sigma, rng);
    }

    fn bpsk_with_noise_soft(&mut self, msg: &[u8], bpsk_voltage: f64, out: &mut [u8]) -> usize {
        self.encoder.encode(msg, &mut self.encoded).unwrap();
        let inv_sqrt2 = 1.0 / 2f64.sqrt();
        for i in 0..self.enclen_bits {
            let sent = if self.encoded[i / 8] & (0x80 >> (i % 8)) != 0 {
                bpsk_voltage
            } else {
                -bpsk_voltage
            };
            let rel = (sent + self.noise[i] * inv_sqrt2) / bpsk_voltage;
            out[i] = if rel > 1.0 {
                255
            } else if rel < -1.0 {
                0
            } else {
                (127.5 + 127.5 * rel) as u8
            };
        }
        count_flips(&self.encoded, out)
    }

    fn test_decoder_with_noise(&mut self, decoder: &mut Decoder, msg: &[u8], bpsk_voltage: f64) -> (usize, usize) {
        let mut soft = vec![0u8; self.enclen_bits];
        let mut msg_out = vec![0u8; msg.len()];
        let uncoded_flips = self.bpsk_with_noise_soft(msg, bpsk_voltage, &mut soft);
        assert_eq!(decoder.decode_soft(&soft, &mut msg_out), Ok(msg.len()));
        (bit_distance(msg, &msg_out), uncoded_flips)
    }

    fn test_decoder_with_noise_hard(
        &mut self,
        decoder: &mut Decoder,
        msg: &[u8],
        bpsk_voltage: f64,
    ) -> (usize, usize) {
        let mut soft = vec![0u8; self.enclen_bits];
        let uncoded_flips = self.bpsk_with_noise_soft(msg, bpsk_voltage, &mut soft);
        let encoded = slice_hard(&soft);
        let mut msg_out = vec![0u8; msg.len()];
        assert_eq!(decoder.decode_hard(&encoded, self.enclen_bits, &mut msg_out), Ok(msg.len()));
        (bit_distance(msg, &msg_out), uncoded_flips)
    }
}

fn assert_ber_threshold(
    rate: u32,
    order: u32,
    polys: &[u16],
    eb_n0_db: f64,
    min_bytes: usize,
    max_ber: Option<f64>,
    hard: bool,
) {
    const BLOCK: usize = 4096;
    const MIN_ERRS: usize = 1000;
    let (volt, bit_energy) = bpsk_params(rate);

    let mut msg = vec![0u8; BLOCK];
    let mut bench = Testbench::new(rate, order, polys, BLOCK);
    let mut rng = Rng::new(0x1234_5678_9ABC_DEF0);
    let mut scalar = Decoder::new(rate, order, polys);
    let mut errs = 0usize;
    let mut uncoded_flips = 0usize;
    let mut channel_bits = 0usize;
    let mut sent = 0usize;

    while sent < min_bytes {
        rng.fill(&mut msg);
        bench.build_noise(eb_n0_db, bit_energy, &mut rng);
        let (err, uncoded_err) = if hard {
            bench.test_decoder_with_noise_hard(&mut scalar, &msg, volt)
        } else {
            bench.test_decoder_with_noise(&mut scalar, &msg, volt)
        };
        errs += err;
        uncoded_flips += uncoded_err;
        channel_bits += bench.enc_bits();
        sent += BLOCK;
    }

    assert!(
        errs >= MIN_ERRS,
        "{rate}/{order}: only {errs} errors at {eb_n0_db}dB over {sent}B. Minimum of \
         {MIN_ERRS} error events required. Lower Eb/N0 or raise min_bytes."
    );

    let coded_bits = sent * 8;
    let ber = errs as f64 / coded_bits as f64;

    // do an absolute ber comparison, either to target or a 4x-uncoded floor
    match max_ber {
        Some(target) => {
            assert!(
                ber <= target,
                "{rate}/{order}: BER {ber:.2e} exceeds reference {target:.2e} \
                 at {eb_n0_db}dB ({errs} errors over {sent}B)."
            );
        }
        None => {
            const MIN_GAIN: f64 = 4.0;
            let uncoded_ber = uncoded_flips as f64 / channel_bits as f64;
            let gain = uncoded_ber / ber;
            assert!(
                gain >= MIN_GAIN,
                "{rate}/{order}: coding gain {gain:.1}x < {MIN_GAIN}x at {eb_n0_db}dB \
                 (uncoded BER {uncoded_ber:.2e}, coded BER {ber:.2e})."
            );
        }
    }
}

const R2K7_2_5_REF_BER: f64 = 2.5e-3;
const R2K7_2_0_REF_BER: f64 = 9.0e-3;
const R2K7_1_5_REF_BER: f64 = 2.5e-2;
const R2K7_4_5_HARD_REF_BER: f64 = 2.0e-3;
const R2K7_4_0_HARD_REF_BER: f64 = 6.0e-3;
const R2K7_3_5_HARD_REF_BER: f64 = 2.0e-2;
const R2K9_2_0_REF_BER: f64 = 4.5e-3;
const R2K9_1_5_REF_BER: f64 = 2.0e-2;
const R2K9_4_0_HARD_REF_BER: f64 = 2.5e-3;
const R2K9_3_5_HARD_REF_BER: f64 = 9.0e-3;
const R3K9_2_0_REF_BER: f64 = 3.0e-3;
const R3K9_1_5_REF_BER: f64 = 9.0e-3;
const R3K9_1_0_REF_BER: f64 = 3.0e-2;
const R3K9_3_5_HARD_REF_BER: f64 = 3.0e-3;
const R3K9_3_0_HARD_REF_BER: f64 = 1.0e-2;
const R3K9_2_5_HARD_REF_BER: f64 = 3.0e-2;

#[test]
fn ber_threshold_2_5() {
    assert_ber_threshold(2, 5, &[0o027, 0o023], 3.0, 300_000, None, false);
    assert_ber_threshold(2, 5, &[0o027, 0o023], 2.5, 300_000, None, false);
    assert_ber_threshold(2, 5, &[0o027, 0o023], 2.0, 300_000, None, false);
}

#[test]
fn ber_threshold_2_6() {
    assert_ber_threshold(2, 6, &[0o065, 0o057], 3.0, 300_000, None, false);
    assert_ber_threshold(2, 6, &[0o065, 0o057], 2.5, 300_000, None, false);
    assert_ber_threshold(2, 6, &[0o065, 0o057], 2.0, 300_000, None, false);
}

#[test]
fn ber_threshold_2_7() {
    assert_ber_threshold(2, 7, &[0o155, 0o117], 2.5, 300_000, Some(R2K7_2_5_REF_BER), false);
    assert_ber_threshold(2, 7, &[0o155, 0o117], 2.0, 300_000, Some(R2K7_2_0_REF_BER), false);
    assert_ber_threshold(2, 7, &[0o155, 0o117], 1.5, 300_000, Some(R2K7_1_5_REF_BER), false);
}

#[test]
fn ber_threshold_hard_2_7() {
    assert_ber_threshold(2, 7, &[0o155, 0o117], 4.5, 300_000, Some(R2K7_4_5_HARD_REF_BER), true);
    assert_ber_threshold(2, 7, &[0o155, 0o117], 4.0, 300_000, Some(R2K7_4_0_HARD_REF_BER), true);
    assert_ber_threshold(2, 7, &[0o155, 0o117], 3.5, 300_000, Some(R2K7_3_5_HARD_REF_BER), true);
}

#[test]
fn ber_threshold_2_8() {
    assert_ber_threshold(2, 8, &[0o367, 0o225], 2.5, 200_000, None, false);
    assert_ber_threshold(2, 8, &[0o367, 0o225], 2.0, 200_000, None, false);
    assert_ber_threshold(2, 8, &[0o367, 0o225], 1.5, 200_000, None, false);
}

#[test]
fn ber_threshold_2_9() {
    assert_ber_threshold(2, 9, &[0o657, 0o435], 2.0, 100_000, Some(R2K9_2_0_REF_BER), false);
    assert_ber_threshold(2, 9, &[0o657, 0o435], 1.5, 100_000, Some(R2K9_1_5_REF_BER), false);
}

#[test]
fn ber_threshold_hard_2_9() {
    assert_ber_threshold(2, 9, &[0o657, 0o435], 4.0, 100_000, Some(R2K9_4_0_HARD_REF_BER), true);
    assert_ber_threshold(2, 9, &[0o657, 0o435], 3.5, 100_000, Some(R2K9_3_5_HARD_REF_BER), true);
}

#[test]
fn ber_threshold_2_15() {
    assert_ber_threshold(2, 15, &[0o56711, 0o75063], 1.2, 10_000, None, false);
}

#[test]
fn ber_threshold_3_7() {
    assert_ber_threshold(3, 7, &[0o175, 0o145, 0o133], 2.5, 300_000, None, false);
    assert_ber_threshold(3, 7, &[0o175, 0o145, 0o133], 2.0, 300_000, None, false);
    assert_ber_threshold(3, 7, &[0o175, 0o145, 0o133], 1.5, 300_000, None, false);
}

#[test]
fn ber_threshold_3_9() {
    assert_ber_threshold(
        3,
        9,
        &[0o755, 0o633, 0o447],
        2.0,
        100_000,
        Some(R3K9_2_0_REF_BER),
        false,
    );
    assert_ber_threshold(
        3,
        9,
        &[0o755, 0o633, 0o447],
        1.5,
        100_000,
        Some(R3K9_1_5_REF_BER),
        false,
    );
    assert_ber_threshold(
        3,
        9,
        &[0o755, 0o633, 0o447],
        1.0,
        100_000,
        Some(R3K9_1_0_REF_BER),
        false,
    );
}

#[test]
fn ber_threshold_hard_3_9() {
    assert_ber_threshold(
        3,
        9,
        &[0o755, 0o633, 0o447],
        3.5,
        100_000,
        Some(R3K9_3_5_HARD_REF_BER),
        true,
    );
    assert_ber_threshold(
        3,
        9,
        &[0o755, 0o633, 0o447],
        3.0,
        100_000,
        Some(R3K9_3_0_HARD_REF_BER),
        true,
    );
    assert_ber_threshold(
        3,
        9,
        &[0o755, 0o633, 0o447],
        2.5,
        100_000,
        Some(R3K9_2_5_HARD_REF_BER),
        true,
    );
}

#[test]
fn ber_threshold_4_7() {
    assert_ber_threshold(4, 7, &[0o133, 0o175, 0o107, 0o101], 2.0, 200_000, None, false);
    assert_ber_threshold(4, 7, &[0o133, 0o175, 0o107, 0o101], 1.5, 200_000, None, false);
    assert_ber_threshold(4, 7, &[0o133, 0o175, 0o107, 0o101], 1.0, 200_000, None, false);
}

#[test]
fn ber_threshold_5_7() {
    assert_ber_threshold(5, 7, &[0o175, 0o145, 0o133, 0o117, 0o127], 2.0, 200_000, None, false);
    assert_ber_threshold(5, 7, &[0o175, 0o145, 0o133, 0o117, 0o127], 1.5, 200_000, None, false);
    assert_ber_threshold(5, 7, &[0o175, 0o145, 0o133, 0o117, 0o127], 1.0, 200_000, None, false);
}

#[test]
fn ber_threshold_6_7() {
    // roku nana! seis siete!
    assert_ber_threshold(
        6,
        7,
        &[0o111, 0o127, 0o133, 0o167, 0o173, 0o175],
        2.0,
        100_000,
        None,
        false,
    );
    assert_ber_threshold(
        6,
        7,
        &[0o111, 0o127, 0o133, 0o167, 0o173, 0o175],
        1.5,
        100_000,
        None,
        false,
    );
    assert_ber_threshold(
        6,
        7,
        &[0o111, 0o127, 0o133, 0o167, 0o173, 0o175],
        1.0,
        100_000,
        None,
        false,
    );
}

#[test]
fn ber_threshold_6_15() {
    assert_ber_threshold(
        6,
        15,
        &[0o42631, 0o47245, 0o56507, 0o73363, 0o77267, 0o64537],
        0.7,
        10_000,
        None,
        false,
    );
    assert_ber_threshold(
        6,
        15,
        &[0o42631, 0o47245, 0o56507, 0o73363, 0o77267, 0o64537],
        0.5,
        10_000,
        None,
        false,
    );
}

#[test]
fn ber_threshold_hard_6_15() {
    assert_ber_threshold(
        6,
        15,
        &[0o42631, 0o47245, 0o56507, 0o73363, 0o77267, 0o64537],
        1.7,
        10_000,
        None,
        true,
    );
    assert_ber_threshold(
        6,
        15,
        &[0o42631, 0o47245, 0o56507, 0o73363, 0o77267, 0o64537],
        1.5,
        10_000,
        None,
        true,
    );
}

#[test]
fn ber_threshold_7_7() {
    assert_ber_threshold(
        7,
        7,
        &[0o155, 0o117, 0o123, 0o161, 0o127, 0o133, 0o145],
        2.0,
        100_000,
        None,
        false,
    );
    assert_ber_threshold(
        7,
        7,
        &[0o155, 0o117, 0o123, 0o161, 0o127, 0o133, 0o145],
        1.5,
        100_000,
        None,
        false,
    );
    assert_ber_threshold(
        7,
        7,
        &[0o155, 0o117, 0o123, 0o161, 0o127, 0o133, 0o145],
        1.0,
        100_000,
        None,
        false,
    );
}

#[test]
fn ber_threshold_8_7() {
    assert_ber_threshold(
        8,
        7,
        &[0o155, 0o117, 0o123, 0o161, 0o127, 0o133, 0o145, 0o171],
        2.0,
        100_000,
        None,
        false,
    );
    assert_ber_threshold(
        8,
        7,
        &[0o155, 0o117, 0o123, 0o161, 0o127, 0o133, 0o145, 0o171],
        1.5,
        100_000,
        None,
        false,
    );
    assert_ber_threshold(
        8,
        7,
        &[0o155, 0o117, 0o123, 0o161, 0o127, 0o133, 0o145, 0o171],
        1.0,
        100_000,
        None,
        false,
    );
}

fn run_ber(
    rate: u32,
    order: u32,
    polys: &[u16],
    eb_n0_db: f64,
    total_bytes: usize,
    block: usize,
    seed: u64,
) -> usize {
    let (bpsk_voltage, bpsk_bit_energy) = bpsk_params(rate);
    let mut decoder = Decoder::new(rate, order, polys);
    let mut bench = Testbench::new(rate, order, polys, block);
    let mut rng = Rng::new(seed);

    let mut errors = 0usize;
    let mut sent = 0usize;
    let mut msg = vec![0u8; block];
    while sent < total_bytes {
        rng.fill(&mut msg);
        bench.build_noise(eb_n0_db, bpsk_bit_energy, &mut rng);
        errors += bench.test_decoder_with_noise(&mut decoder, &msg, bpsk_voltage).0;
        sent += block;
    }
    errors
}

fn measure_ber(
    rate: u32,
    order: u32,
    polys: &[u16],
    eb_n0_db: f64,
    total_bytes: usize,
    block: usize,
    seed: u64,
) -> f64 {
    let errors = run_ber(rate, order, polys, eb_n0_db, total_bytes, block, seed);
    let sent = total_bytes.div_ceil(block) * block;
    errors as f64 / (sent as f64 * 8.0)
}

fn uncoded_ber(eb_n0_db: f64, n_bits: usize, seed: u64) -> f64 {
    let mut rng = Rng::new(seed);
    let bpsk_voltage = 1.0 / 2f64.sqrt();
    let bpsk_bit_energy = 2.0 * bpsk_voltage * bpsk_voltage;
    let sigma = sigma_for_eb_n0(eb_n0_db, bpsk_bit_energy);
    let mut noise = vec![0.0f64; n_bits];
    gaussian(&mut noise, sigma, &mut rng);
    let mut signal = vec![bpsk_voltage; n_bits];
    let inv_sqrt2 = 1.0 / 2f64.sqrt();
    for (s, n) in signal.iter_mut().zip(&noise) {
        *s += n * inv_sqrt2;
    }
    let errors = signal.iter().filter(|&s| *s < 0.0).count() as usize;
    errors as f64 / n_bits as f64
}

fn assert_coding_gain(rate: u32, order: u32, polys: &[u16], high_db: f64, mid_db: f64, bytes: usize) {
    let high = measure_ber(rate, order, polys, high_db, bytes, 4096, 1234_5678);
    let mid = measure_ber(rate, order, polys, mid_db, bytes, 4096, 1234_5678);

    let high_uncoded = uncoded_ber(high_db, bytes * 8, 1234_5678);
    let mid_uncoded = uncoded_ber(mid_db, bytes * 8, 1234_5678);

    assert!(high < 1e-4, "{rate}/{order}: {high_db}dB coded BER too high: {high}");
    assert!(
        high < high_uncoded / 100.0,
        "{rate}/{order}: no coding gain at {high_db}dB - coded {high} vs uncoded {high_uncoded}"
    );
    assert!(mid >= high, "{rate}/{order}: BER not monotonic ({mid} < {high})");
    assert!(
        mid < mid_uncoded / 25.0,
        "{rate}/{order}: no coding gain at {mid_db}dB - coded {mid} vs uncoded {mid_uncoded}"
    );
}

#[test]
fn scalar_coding_gain_k7() {
    assert_coding_gain(2, 7, &[0o161, 0o127], 5.0, 3.0, 100_000);
}

#[test]
fn scalar_coding_gain_k9() {
    assert_coding_gain(2, 9, &[0o657, 0o435], 4.5, 2.5, 100_000);
}

#[test]
fn deterministic_testing() {
    let polys = [0o161u16, 0o127];
    let a = measure_ber(2, 7, &polys, 3.0, 40_000, 4096, 1234_5678);
    let b = measure_ber(2, 7, &polys, 3.0, 40_000, 4096, 1234_5678);
    assert_eq!(a, b);
}
