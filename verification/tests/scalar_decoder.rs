//! The scalar decoder on messages with isolated errors.

use fec::convolutional::sim::{flip_with_interval, Rng};
use fec::convolutional::{DecodeError, Decoder, Encoder};

#[test]
fn decoder_rejects_malformed_inputs() {
    let mut d = Decoder::new(2, 7, &[0o155, 0o117]);
    let mut out = vec![0u8; 64];
    // not a multiple of rate
    assert!(matches!(
        d.decode_hard(&[0u8; 16], 7, &mut out),
        Err(DecodeError::InvalidLength { .. })
    ));
    // encoded shorter than num_encoded_bits describes
    assert!(matches!(
        d.decode_hard(&[0u8; 2], 64, &mut out),
        Err(DecodeError::InvalidLength { .. })
    ));
    // too short to decode (would underflow the body loop bound)
    assert!(matches!(
        d.decode_hard(&[0u8; 4], 8, &mut out),
        Err(DecodeError::InvalidLength { .. })
    ));
    assert!(matches!(
        d.decode_soft(&[0u8; 4], &mut out),
        Err(DecodeError::InvalidLength { .. })
    ));
    // output buffer too small
    let encoded = vec![0u8; 200];
    assert!(matches!(
        d.decode_soft(&encoded, &mut [0u8; 1]),
        Err(DecodeError::OutputTooSmall { .. })
    ));
}

fn decode_matches_msg<const RATE: u32, const ORDER: u32>(
    polys: &[u16],
    msg_len: usize,
    seed: u64,
    hard: bool,
    clean: bool,
) {
    let mut rng = Rng::new(seed);
    let mut msg = vec![0u8; msg_len];
    rng.fill(&mut msg);

    let mut enc = Encoder::new(RATE, ORDER, polys);
    let enc_bits = enc.encode_len(msg_len);
    let mut encoded = vec![0u8; enc_bits.div_ceil(8)];
    enc.encode(&msg, &mut encoded).unwrap();

    if !clean {
        flip_with_interval(&mut encoded, enc_bits, RATE, ORDER, &mut rng);
    }

    let mut out = vec![0u8; msg_len];
    let mut dec = Decoder::new(RATE, ORDER, polys);
    if hard {
        dec.decode_hard(&encoded, enc_bits, &mut out).unwrap();
    } else {
        let mut soft = vec![0u8; enc_bits];
        for (i, s) in soft.iter_mut().enumerate() {
            *s = if encoded[i / 8] & (0x80 >> (i % 8)) != 0 {
                255
            } else {
                0
            };
        }
        dec.decode_soft(&soft, &mut out).unwrap();
    }

    let mode = if hard { "hard" } else { "soft" };
    assert_eq!(
        &out, &msg,
        "scalar decode wrong: rate={RATE} order={ORDER} len={msg_len} mode={mode} \
         clean={clean} seed={seed}"
    );
}

fn test_rate_order<const RATE: u32, const ORDER: u32>(polys: &[u16]) {
    for clean in [false, true] {
        for hard in [false, true] {
            for (msg_len, seeds) in [(256usize, 16u64), (1500usize, 8u64)] {
                for seed in 1..=seeds {
                    decode_matches_msg::<RATE, ORDER>(polys, msg_len, seed, hard, clean);
                }
            }
        }
    }
}

#[test]
fn decoder_matches_msg_2_4() {
    test_rate_order::<2, 4>(&[0o017, 0o013]);
}
#[test]
fn decoder_matches_msg_2_5() {
    test_rate_order::<2, 5>(&[0o027, 0o023]);
}
#[test]
fn decoder_matches_msg_2_6() {
    test_rate_order::<2, 6>(&[0o065, 0o057]);
}
#[test]
fn decoder_matches_msg_2_7() {
    test_rate_order::<2, 7>(&[0o155, 0o117]);
}
#[test]
fn decoder_matches_msg_2_8() {
    test_rate_order::<2, 8>(&[0o367, 0o225]);
}
#[test]
fn decoder_matches_msg_2_9() {
    test_rate_order::<2, 9>(&[0o657, 0o435]);
}
#[test]
fn decoder_matches_msg_2_10() {
    test_rate_order::<2, 10>(&[0o1627, 0o1063]);
}
#[test]
fn decoder_matches_msg_3_9() {
    test_rate_order::<3, 9>(&[0o755, 0o633, 0o447]);
}
#[test]
fn decoder_matches_msg_4_7() {
    test_rate_order::<4, 7>(&[0o133, 0o175, 0o107, 0o101]);
}
#[test]
fn decoder_matches_msg_6_15() {
    test_rate_order::<6, 15>(&[0o42631, 0o47245, 0o56507, 0o73363, 0o77267, 0o64537]);
}
#[test]
fn decoder_matches_msg_7_7() {
    test_rate_order::<7, 7>(&[0o155, 0o117, 0o123, 0o161, 0o127, 0o133, 0o145]);
}
#[test]
fn decoder_matches_msg_8_7() {
    test_rate_order::<8, 7>(&[0o155, 0o117, 0o123, 0o161, 0o127, 0o133, 0o145, 0o171]);
}
