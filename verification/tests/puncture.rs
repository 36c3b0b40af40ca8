//! Puncturing and depuncturing.

use fec::convolutional::sim::Rng;
use fec::convolutional::{Decoder, Encoder, PunctureError, Puncturer};

const RATE_3_4: [[bool; 2]; 2] = [[true, true], [true, false]];

fn new(m: &[[bool; 2]; 2]) -> Puncturer {
    let rows: Vec<&[bool]> = m.iter().map(|r| r.as_slice()).collect();
    Puncturer::from_matrix(&rows).unwrap()
}

#[test]
fn rejects_bad_patterns() {
    assert!(matches!(Puncturer::new(&[]), Err(PunctureError::EmptyPattern)));
    assert!(matches!(
        Puncturer::new(&[false, false]),
        Err(PunctureError::NoKeptBits)
    ));
    assert!(matches!(Puncturer::from_matrix(&[]), Err(PunctureError::EmptyPattern)));
    let ragged: [&[bool]; 2] = [&[true, true], &[true]];
    assert!(matches!(
        Puncturer::from_matrix(&ragged),
        Err(PunctureError::RaggedMatrix)
    ));
}

#[test]
fn matrix_flattens_in_stream_order() {
    let p = new(&RATE_3_4);
    assert_eq!(p.period(), 4);
    let keep: Vec<bool> = (0..p.period()).map(|i| p.keeps(i)).collect();
    assert_eq!(keep, vec![true, true, true, false]);
}

#[test]
fn punctured_len_counts_kept_bits() {
    let p = new(&RATE_3_4);
    // 3 of every 4 bits survive
    assert_eq!(p.punctured_len(4), 3);
    assert_eq!(p.punctured_len(8), 6);
    assert_eq!(p.punctured_len(400), 300);
    // partial periods count only the kept positions of the prefix
    assert_eq!(p.punctured_len(1), 1);
    assert_eq!(p.punctured_len(2), 2);
    assert_eq!(p.punctured_len(3), 3);
    assert_eq!(p.punctured_len(5), 4);
}

#[test]
fn keep_all_is_identity() {
    let p = Puncturer::new(&[true, true]).unwrap();
    let src = [0x77, 0xff];
    let bits = 16;
    let mut punctured = vec![0u8; 2];
    assert_eq!(p.puncture(&src, bits, &mut punctured).unwrap(), 16);
    assert_eq!(punctured, src);

    let mut expanded = vec![0u8; 2];
    let mut erasure = vec![0xFFu8; 2];
    p.depuncture_hard(&punctured, bits, &mut expanded, &mut erasure)
        .unwrap();
    assert_eq!(expanded, src);
    assert_eq!(erasure, vec![0u8; 2], "nothing should be flagged erased");
}

#[test]
fn hard_round_trip_restores_kept_bits() {
    let p = new(&RATE_3_4);
    let mut rng = Rng::new(99);
    let bits = 800;
    let mut src = vec![0u8; bits / 8];

    rng.fill(&mut src);

    let mut punctured = vec![0u8; p.punctured_len(bits).div_ceil(8)];
    p.puncture(&src, bits, &mut punctured).unwrap();

    let mut expanded = vec![0u8; bits / 8];
    let mut erasure = vec![0u8; bits / 8];
    p.depuncture_hard(&punctured, bits, &mut expanded, &mut erasure)
        .unwrap();

    for i in 0..bits {
        let erased = erasure[i / 8] & (0x80 >> (i % 8)) != 0;
        assert_eq!(erased, !p.keeps(i), "erasure flag wrong at bit {i}");
        if !erased {
            let want = src[i / 8] & (0x80 >> (i % 8));
            let got = expanded[i / 8] & (0x80 >> (i % 8));
            assert_eq!(got, want, "kept bit {i} did not survive the round trip");
        }
    }
}

#[test]
fn soft_round_trip_restores_kept_symbols() {
    let p = new(&RATE_3_4);
    let bits = 400;
    let soft_full: Vec<u8> = (0..bits).map(|i| (i % 256) as u8).collect();

    let punctured: Vec<u8> = (0..bits).filter(|&i| p.keeps(i)).map(|i| soft_full[i]).collect();
    assert_eq!(punctured.len(), p.punctured_len(bits));

    let mut expanded = vec![0u8; bits];
    let mut erasure = vec![0u8; bits.div_ceil(8)];
    p.depuncture_soft(&punctured, &mut expanded, &mut erasure).unwrap();

    for i in 0..bits {
        let erased = erasure[i / 8] & (0x80 >> (i % 8)) != 0;
        assert_eq!(erased, !p.keeps(i), "erasure flag wrong at symbol {i}");
        if erased {
            assert_eq!(expanded[i], 128, "punctured slot should hold the neutral value");
        } else {
            assert_eq!(expanded[i], soft_full[i], "kept symbol {i} did not survive");
        }
    }
}

#[test]
fn rejects_bad_buffers() {
    let p = new(&RATE_3_4);
    let src = vec![0u8; 100];
    let bits = src.len() * 8;

    // output too small for the punctured block
    let mut tiny = vec![0u8; 1];
    assert!(matches!(
        p.puncture(&src, bits, &mut tiny),
        Err(PunctureError::OutputTooSmall { .. })
    ));

    // input shorter than encoded_bits describes
    let mut out = vec![0u8; 100];
    assert!(matches!(
        p.puncture(&[0u8; 4], bits, &mut out),
        Err(PunctureError::InputTooSmall { .. })
    ));

    // depuncture with a short erasure buffer
    let punctured = vec![0u8; p.punctured_len(bits).div_ceil(8)];
    let mut expanded = vec![0u8; 100];

    assert!(matches!(
        p.depuncture_hard(&punctured, bits, &mut expanded, &mut [0u8; 1]),
        Err(PunctureError::OutputTooSmall { .. })
    ));
    assert!(matches!(
        p.depuncture_soft(&[0u8; 8], &mut vec![0u8; bits], &mut [0u8; 1]),
        Err(PunctureError::InputTooSmall { .. })
    ));
}

#[test]
fn handles_non_byte_aligned_block() {
    let p = new(&RATE_3_4);
    let mut unaligned_enc_seen = 0;
    let mut unaligned_punc_seen = 0;

    let mut rng = Rng::new(0xABCD_1234);

    for enc_bits in 8usize..=512 {
        if !enc_bits.is_multiple_of(8) {
            unaligned_enc_seen += 1;
        }

        let mut encoded = vec![0u8; enc_bits.div_ceil(8)];
        rng.fill(&mut encoded);

        let punctured_len = p.punctured_len(enc_bits);
        if !punctured_len.is_multiple_of(8) {
            unaligned_punc_seen += 1;
        }

        let mut punctured = vec![0u8; punctured_len.div_ceil(8)];
        p.puncture(&encoded, enc_bits, &mut punctured).unwrap();

        // hard: explicit count, so the trailing partial byte is handled exactly
        let mut expanded = vec![0u8; enc_bits.div_ceil(8)];
        let mut erasure = vec![0u8; enc_bits.div_ceil(8)];
        p.depuncture_hard(&punctured, enc_bits, &mut expanded, &mut erasure)
            .unwrap();
        for i in 0..enc_bits {
            let erased = erasure[i / 8] & (0x80 >> (i % 8)) != 0;
            assert_eq!(erased, !p.keeps(i), "hard erasure flag wrong at bit {i}");
            if !erased {
                assert_eq!(
                    expanded[i / 8] & (0x80 >> (i % 8)),
                    encoded[i / 8] & (0x80 >> (i % 8)),
                    "hard kept bit {i} did not survive"
                );
            }
        }

        // soft: dst.len() carries the exact bit count, no argument needed
        let soft_punctured: Vec<u8> = (0..enc_bits)
            .filter(|&i| p.keeps(i))
            .map(|i| {
                if encoded[i / 8] & (0x80 >> (i % 8)) != 0 {
                    255
                } else {
                    0
                }
            })
            .collect();
        let mut soft_expanded = vec![0u8; enc_bits];
        let mut soft_erasure = vec![0u8; enc_bits.div_ceil(8)];
        p.depuncture_soft(&soft_punctured, &mut soft_expanded, &mut soft_erasure)
            .unwrap();
        assert_eq!(
            soft_erasure, erasure,
            "hard and soft must produce the same erasure mask for the same block"
        );
        for i in 0..enc_bits {
            if p.keeps(i) {
                let want = if encoded[i / 8] & (0x80 >> (i % 8)) != 0 {
                    255
                } else {
                    0
                };
                assert_eq!(
                    soft_expanded[i], want,
                    "kept soft symbol {i} of {enc_bits} did not survive"
                );
            } else {
                assert_eq!(
                    soft_expanded[i], 128,
                    "punctured soft slot {i} of {enc_bits} should hold the neutral value"
                );
            }
        }
    }

    assert!(
        unaligned_enc_seen > 0,
        "sweep never produced a non-byte-aligned encoded length"
    );
    assert!(
        unaligned_punc_seen > 0,
        "sweep never produced a non-byte-aligned punctured length"
    );
}

fn assert_punctured_decode_recovers(keep: &[bool], hard: bool) {
    let rate = 2;
    let order = 7;
    let polys = [0o155u16, 0o117];
    let p = Puncturer::new(keep).unwrap();
    let msg_len = 400;

    let mut rng = Rng::new(0xABCD);
    let mut msg = vec![0u8; msg_len];
    rng.fill(&mut msg);

    let mut enc = Encoder::new(rate, order, &polys);
    let enc_bits = enc.encode_len(msg_len);
    let mut encoded = vec![0u8; enc_bits.div_ceil(8)];
    enc.encode(&msg, &mut encoded).unwrap();

    let mut dec = Decoder::new(rate, order, &polys);
    let mut out = vec![0u8; msg_len];
    let mut erasure = vec![0u8; enc_bits.div_ceil(8)];
    let punctured_len = p.punctured_len(enc_bits);

    let mut punctured = vec![0u8; punctured_len.div_ceil(8)];
    p.puncture(&encoded, enc_bits, &mut punctured).unwrap();

    if hard {
        let mut expanded = vec![0u8; enc_bits.div_ceil(8)];
        p.depuncture_hard(&punctured, enc_bits, &mut expanded, &mut erasure)
            .unwrap();
        dec.decode_hard_with_erasure(&expanded, enc_bits, &erasure, &mut out)
            .unwrap();
    } else {
        let mut soft = vec![0u8; punctured_len];
        for (i, s) in soft.iter_mut().enumerate() {
            *s = if punctured[i / 8] & (0x80 >> (i % 8)) != 0 {
                255
            } else {
                0
            };
        }

        let mut expanded = vec![0u8; enc_bits];
        p.depuncture_soft(&soft, &mut expanded, &mut erasure).unwrap();
        dec.decode_soft_with_erasure(&expanded, &erasure, &mut out).unwrap();
    }

    let mode = if hard { "hard" } else { "soft" };
    assert_eq!(out, msg, "punctured decode failed: keep={keep:?} mode={mode}");
}

#[test]
fn punctured_decode_recovers_rate_3_4() {
    assert_punctured_decode_recovers(&[true, true, true, false], true);
    assert_punctured_decode_recovers(&[true, true, true, false], false);
}

#[test]
fn punctured_decode_recovers_rate_2_3() {
    assert_punctured_decode_recovers(&[true, true, true, false, false, true], true);
    assert_punctured_decode_recovers(&[true, true, true, false, false, true], false);
}

#[test]
fn punctured_decode_recovers_unpunctured() {
    assert_punctured_decode_recovers(&[true, true], true);
    assert_punctured_decode_recovers(&[true, true], false);
}
