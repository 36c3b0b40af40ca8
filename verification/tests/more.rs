//! Scenarios across the library.

use fec::convolutional::channel::NEUTRAL_SYMBOL;
use fec::convolutional::history::ConvolutionalHistoryTable;
use fec::convolutional::margin::withstands_interval;
use fec::convolutional::paths::{default_polys, is_valid_path, valid_paths, Probe};
use fec::convolutional::sim::{
    bit_distance, count_flips, flip_with_interval, sent_bit, slice_hard, Rng, TestCase,
};
use fec::convolutional::simd::EnableArch;
use fec::convolutional::tables::ConvolutionalPairTable;
use fec::convolutional::util::conv_poly_table;
use fec::convolutional::{
    encoded_len_bits, payload_len_bytes, DecodeError, Decoder, EncodeError, Encoder, ForcedPath,
    PunctureError, Puncturer, SimdDecoder,
};
use fec::reed_solomon::ccsds::{conv_to_dual, dual_to_conv};
use fec::reed_solomon::field::Field;
use fec::reed_solomon::trypoly::{powers_of, trypoly};
use fec::search::batch::SharedState;
use fec::search::best::BestPolys;
use fec::search::bounds::{griesmer, heller};
use fec::search::enumerate::{can_count, candidate_count};
use fec::search::gf2::{degree, gf2_gcd};
use fec::search::reciprocal::reciprocal;
use fec::search::shortest::{evaluate_free_distance, free_distance_bound};
use fec::search::spectrum::{count_walks, evaluate_a_dfree, evaluate_spectrum};
use fec::search::weight::{gf2_mul, output_weight_for_input, output_weight_for_state};
use fec::shim::{decode_rs_8, decode_rs_ccsds, encode_rs_8, encode_rs_ccsds, RsShim, Shim};
use fec::{ConvDecoder, ConvEncoder, ConvPuncturer, RsDecodeError, RsDecoder, RsEncodeError, RsEncoder};

const NASA: [u16; 2] = [0o161, 0o127];

#[test]
fn clean_round_trip() {
    let bytes: [u8; 10] = [1, 2, 3, 4, 5, 6, 7, 8, 9, 10];
    let mut encoder = ConvEncoder::new(2, 7, &NASA);
    let enc_len = encoder.encode_len(bytes.len());
    assert_eq!(enc_len, 176);
    let mut encoded = vec![0; enc_len / 8 + 1];
    assert_eq!(encoder.encode(&bytes, &mut encoded), Ok(176));
    let mut decoder = ConvDecoder::new(2, 7, &NASA);
    let mut decoded = vec![0; bytes.len()];
    assert_eq!(decoder.decode_hard(&encoded, enc_len, &mut decoded), Ok(10));
    assert_eq!(decoded, bytes);
}

#[test]
fn scattered_errors_are_corrected() {
    let message: &[u8] = b"the quick brown fox jumps over the lazy dog";
    let mut encoder = Encoder::new(2, 7, &NASA);
    let enc_len = encoder.encode_len(message.len());
    let mut encoded = vec![0u8; enc_len.div_ceil(8)];
    encoder.encode(message, &mut encoded).unwrap();
    let mut errors = 0;
    let mut bit = 50;
    while bit < enc_len {
        encoded[bit / 8] ^= 0x80 >> (bit % 8);
        errors += 1;
        bit += 100;
    }
    assert_eq!(errors, 7);
    let mut decoded = vec![0u8; message.len()];
    let mut decoder = Decoder::new(2, 7, &NASA);
    assert_eq!(decoder.decode_hard(&encoded, enc_len, &mut decoded), Ok(message.len()));
    assert_eq!(decoded, message);
}

#[test]
fn block_errors_are_corrected_and_counted() {
    let mut encoder = RsEncoder::new_ccsds();
    let mut decoder = RsDecoder::new_ccsds();
    let message: Vec<u8> = (0..223).collect();
    let mut block = vec![0u8; 255];
    assert_eq!(encoder.encode(&message, &mut block), Ok(255));
    let corrupt_positions = [3, 40, 77, 100, 128, 150, 190, 200, 233, 254];
    for &pos in &corrupt_positions {
        block[pos] ^= 0xff;
    }
    let mut recovered = vec![0u8; 223];
    assert_eq!(decoder.decode(&block, &mut recovered), Ok(10));
    assert_eq!(recovered, message);
}

#[test]
fn lengths_of_small_blocks() {
    assert_eq!(encoded_len_bits(2, 7, 0), 16);
    assert_eq!(encoded_len_bits(3, 9, 100), 2430);
    assert_eq!(payload_len_bytes(2, 7, 16), 0);
    assert_eq!(payload_len_bytes(2, 7, 15), 0);
    assert_eq!(payload_len_bytes(3, 9, 2430), 100);
    assert_eq!(payload_len_bytes(3, 9, 2429), 99);
}

#[test]
fn encoded_bits_of_one_byte() {
    // a single one puts the polynomials out, lowest coefficients first
    let mut enc = Encoder::new(2, 4, &[0o17, 0o13]);
    let mut out = [0u8; 4];
    assert_eq!(enc.encode(&[0x80], &mut out), Ok(26));
    assert_eq!(out, [0b1111_1011, 0, 0, 0]);
}

#[test]
fn errors_carry_the_lengths() {
    let mut enc = Encoder::new(2, 7, &NASA);
    let mut short = [0u8; 3];
    assert_eq!(
        enc.encode(&[1, 2, 3, 4], &mut short),
        Err(EncodeError::OutputTooSmall { needed: 10, actual: 3 })
    );
    let mut dec = Decoder::new(2, 7, &NASA);
    assert_eq!(
        dec.decode_soft(&[0u8; 81], &mut [0u8; 8]),
        Err(DecodeError::InvalidLength { num_encoded_bits: 81, rate: 2 })
    );
    assert_eq!(
        dec.decode_soft(&[0u8; 80], &mut [0u8; 3]),
        Err(DecodeError::OutputTooSmall { needed: 4, actual: 3 })
    );
    let mut simd = SimdDecoder::<2, 7>::new(&NASA);
    assert_eq!(
        simd.decode_soft(&[0u8; 80], &mut [0u8; 3]),
        Err(DecodeError::OutputTooSmall { needed: 4, actual: 3 })
    );
    assert_eq!(
        simd.decode_hard_with_erasure(&[0u8; 10], 80, &[0u8; 9], &mut [0u8; 4]),
        Err(DecodeError::InvalidLength { num_encoded_bits: 80, rate: 2 })
    );
    assert_eq!(simd.decode_soft(&[0u8; 80], &mut [0u8; 4]), Ok(4));
    let mut rs = RsEncoder::new_ccsds();
    assert_eq!(rs.encode_ccsds_dual(&[0u8; 224], &mut [0u8; 32]), Err(RsEncodeError::MessageTooLong));
    let mut rs = RsDecoder::new_ccsds();
    assert_eq!(rs.decode(&[0u8; 256], &mut [0u8; 223]), Err(RsDecodeError::BlockTooLong));
    assert_eq!(rs.decode_ccsds_dual(&[0u8; 256], &mut [0u8; 223]), Err(RsDecodeError::BlockTooLong));
    let p = Puncturer::new(&[true, false]).unwrap();
    assert_eq!(
        p.depuncture_hard(&[0u8; 1], 32, &mut [0u8; 4], &mut [0u8; 4]),
        Err(PunctureError::InputTooSmall { needed: 2, actual: 1 })
    );
    assert_eq!(p.puncture(&[], 0, &mut []), Ok(0));
}

#[test]
fn decoders_agree_on_erasures() {
    let polys = [0o155u16, 0o117];
    let mut rng = Rng::new(77);
    let mut msg = vec![0u8; 200];
    rng.fill(&mut msg);
    let mut enc = Encoder::new(2, 7, &polys);
    let bits = enc.encode_len(msg.len());
    let mut encoded = vec![0u8; bits.div_ceil(8)];
    enc.encode(&msg, &mut encoded).unwrap();
    let p = Puncturer::new(&[true, true, true, false]).unwrap();
    let mut sent = vec![0u8; p.punctured_len(bits).div_ceil(8)];
    p.puncture(&encoded, bits, &mut sent).unwrap();
    let mut expanded = vec![0u8; bits.div_ceil(8)];
    let mut erasure = vec![0u8; bits.div_ceil(8)];
    p.depuncture_hard(&sent, bits, &mut expanded, &mut erasure).unwrap();
    // two errors among the kept bits
    expanded[5] ^= 0x80;
    expanded[60] ^= 0x40;
    let soft: Vec<u8> = (0..bits).map(|i| if sent_bit(&expanded, i) { 255 } else { 0 }).collect();
    let mut scalar = Decoder::new(2, 7, &polys);
    let mut simd = SimdDecoder::<2, 7>::new(&polys);
    let mut outs = vec![vec![0u8; 200]; 4];
    scalar.decode_hard_with_erasure(&expanded, bits, &erasure, &mut outs[0]).unwrap();
    simd.decode_hard_with_erasure(&expanded, bits, &erasure, &mut outs[1]).unwrap();
    scalar.decode_soft_with_erasure(&soft, &erasure, &mut outs[2]).unwrap();
    simd.decode_soft_with_erasure(&soft, &erasure, &mut outs[3]).unwrap();
    for out in &outs {
        assert_eq!(out, &msg);
    }
}

#[test]
fn generator_is_split_mix() {
    let mut rng = Rng::new(0);
    assert_eq!(rng.next_u64(), 0xE220_A839_7B1D_CDAF);
    assert_eq!(rng.next_u64(), 0x6E78_9E6A_A1B9_65F4);
    let mut rng = Rng::new(0);
    assert_eq!(rng.next_u8(), 0xE2);
    assert_eq!(rng.next_u53(), 0x6E78_9E6A_A1B9_65F4 >> 11);
    let mut rng = Rng::new(0);
    assert_eq!(rng.next_u64_below(10), (0xE220_A839_7B1D_CDAFu64 % 10) as usize);
    let mut bytes = [0u8; 2];
    Rng::new(0).fill(&mut bytes);
    assert_eq!(bytes, [0xE2, 0x6E]);
}

#[test]
fn distances_and_decisions() {
    assert_eq!(bit_distance(&[0xff, 0x00], &[0x0f, 0x01]), 5);
    assert_eq!(bit_distance(&[0xff, 0x00, 0xff], &[0xff]), 0);
    let soft = [255u8, 127, 128, 0, 0, 0, 0, 0, 200];
    assert_eq!(slice_hard(&soft), vec![0b1010_0000, 0b1000_0000]);
    assert_eq!(count_flips(&[0b1110_0000, 0], &soft), 2);
    assert_eq!(bit_distance(&[0b1110_0000, 0], &slice_hard(&soft)), 2);
    assert!(sent_bit(&[0, 0x40], 9));
    assert!(!sent_bit(&[0, 0x40], 8));
    let case = TestCase::new(vec![1, 2], soft.to_vec());
    assert_eq!((case.enc_bits, case.hard), (9, vec![0b1010_0000, 0b1000_0000]));
}

#[test]
fn one_flip_per_window() {
    let mut rng = Rng::new(5);
    let mut encoded = vec![0u8; 100];
    let flips = flip_with_interval(&mut encoded, 799, 2, 7, &mut rng);
    assert_eq!(flips, 11);
    assert_eq!(bit_distance(&encoded, &[0u8; 100]), 11);
    for w in 0..11 {
        let hits = (70 * w..70 * (w + 1)).filter(|&i| sent_bit(&encoded, i)).count();
        assert_eq!(hits, 1, "window {w}");
    }
}

#[test]
fn primitive_polynomials_are_found() {
    let mut log = [0u8; 256];
    let found: Vec<u16> = (0x100..0x200u16).filter(|&p| trypoly(p, &mut log)).collect();
    assert_eq!(
        found,
        [
            0x11d, 0x12b, 0x12d, 0x14d, 0x15f, 0x163, 0x165, 0x169, 0x171, 0x187, 0x18d, 0x1a9, 0x1c3, 0x1cf,
            0x1e7, 0x1f5
        ]
    );
    assert!(trypoly(0x11d, &mut log));
    let field = Field::new(0x11d);
    for e in 2..256usize {
        assert_eq!(log[e], field.log[e]);
    }
    assert_eq!(powers_of(0x11d), [8, 4, 3, 2, 0]);
    assert_eq!(powers_of(0x100), [8]);
}

#[test]
fn bases_are_inverse() {
    for b in 0..=255u8 {
        assert_eq!(dual_to_conv(conv_to_dual(b)), b);
        assert_eq!(conv_to_dual(dual_to_conv(b)), b);
    }
    assert_eq!(conv_to_dual(0x01), 0x7b);
    assert_eq!(dual_to_conv(0x01), 0xcc);
}

#[test]
fn paths_of_a_code() {
    let none = EnableArch { sse41: false, avx2: false, avx512: false };
    let all = EnableArch { sse41: true, avx2: true, avx512: true };
    assert_eq!(
        valid_paths(2, 7, none),
        [
            Probe::Simd(ForcedPath::Register128),
            Probe::Simd(ForcedPath::Shuffle128),
            Probe::Simd(ForcedPath::OctLookup128),
            Probe::Scalar
        ]
    );
    assert_eq!(valid_paths(2, 7, all).len(), 14);
    assert_eq!(valid_paths(2, 3, all), [Probe::Scalar]);
    assert!(is_valid_path(ForcedPath::PermuteAvx512, 6, 15, all));
    assert!(!is_valid_path(ForcedPath::PermuteAvx512, 7, 7, all));
    assert_eq!(default_polys(3, 9), Some(vec![0o755, 0o633, 0o447]));
    assert_eq!(default_polys(5, 7), None);
}

#[test]
fn batches_cover_every_candidate_once() {
    let total = 150_000u128;
    let mut state = SharedState::new(total);
    let mut seen = vec![0u8; total as usize];
    let mut reports = Vec::new();
    loop {
        let batch = state.next_batch(60_000);
        reports.extend(batch.milestones.iter().map(|m| (m.evaluated, m.percent)));
        if batch.length == 0 {
            break;
        }
        for i in 0..batch.length {
            seen[batch.start as usize + i] += 1;
        }
    }
    assert!(seen.iter().all(|&n| n == 1));
    assert_eq!(state.count(), total);
    assert_eq!(reports.len(), 20);
    assert_eq!(reports[0], (7_500, 5));
    assert_eq!(reports[19], (150_000, 100));
    let mut state = SharedState::new(150_000);
    let first = state.next_batch(140_000);
    assert_eq!((first.start, first.length), (140_000, 10_000));
    let second = state.next_batch(140_000);
    assert_eq!((second.start, second.length), (0, 65_536));
}

#[test]
fn polynomials_over_two_elements() {
    assert_eq!(degree(0b1011), 3);
    assert_eq!(gf2_gcd(0b110, 0b100), 0b10);
    assert_eq!(gf2_mul(0b11, 0b11), 0b101);
    assert_eq!(output_weight_for_input(1, &[0o5, 0o7]), 5);
    assert_eq!(output_weight_for_input(0b11, &[0o5, 0o7]), 6);
    assert_eq!(output_weight_for_state(0b101, 2, &[0o5, 0o7]), 0);
    assert_eq!(free_distance_bound(&[0o5, 0o7], 3, None), 5);
}

#[test]
fn bounds_hold_of_known_codes() {
    for (order, polys) in [(3, [0o5, 0o7]), (5, [0o23, 0o35]), (7, [0o133, 0o171]), (9, [0o561, 0o753])] {
        let d = evaluate_free_distance(2, order, &polys).unwrap();
        assert!(d <= heller(2, order));
        assert!(d <= griesmer(2, order));
    }
}

#[test]
fn spectrum_of_a_code_and_its_reciprocal() {
    assert_eq!(evaluate_spectrum(2, 7, &[0o133, 0o171]), Some((10, 11)));
    assert_eq!(evaluate_spectrum(2, 3, &[0o4, 0o6]), None);
    assert_eq!(count_walks(2, 7, &[0o133, 0o171], 10), Some(11));
    for polys in [[0o23u16, 0o35], [0o31, 0o33], [0o25, 0o37]] {
        let mut twin = [0u16; 2];
        reciprocal(&polys, 5, &mut twin);
        assert_eq!(evaluate_spectrum(2, 5, &polys), evaluate_spectrum(2, 5, &twin));
    }
    let mut twin = [0u16; 2];
    reciprocal(&[0o23, 0o35], 5, &mut twin);
    assert_eq!(twin, [0o27, 0o31]);
}

#[test]
fn search_keeps_the_best() {
    let total = candidate_count(2, 5);
    assert_eq!(total, 36);
    let mut whole = BestPolys::new(2, 5, 4);
    assert!(whole.search_batch(0, 36, 0));
    let kept: Vec<(Vec<u16>, u32, u64)> =
        whole.candidates().iter().map(|c| (c.poly.clone(), c.d_free, c.a_dfree)).collect();
    assert_eq!(kept.len(), 4);
    assert_eq!((kept[0].1, kept[0].2), (7, 2));
    for (poly, d, a) in &kept {
        assert_eq!(evaluate_free_distance(2, 5, poly), Some(*d));
        assert_eq!(evaluate_a_dfree(2, 5, poly, *d), *a);
    }
    // the same in two parts, merged
    let mut first = BestPolys::new(2, 5, 4);
    let mut second = BestPolys::new(2, 5, 4);
    assert!(first.search_batch(0, 20, 0));
    assert!(second.search_batch(20, 16, 0));
    first.merge(&second);
    let merged: Vec<(Vec<u16>, u32, u64)> =
        first.candidates().iter().map(|c| (c.poly.clone(), c.d_free, c.a_dfree)).collect();
    assert_eq!(merged, kept);
    assert_eq!(whole.threshold(), Some(kept[3].1));
}

#[test]
fn shim_hands_out_what_it_decoded() {
    let polys = [0o155u16, 0o117];
    let msg: Vec<u8> = (0..40u8).map(|i| i.wrapping_mul(29)).collect();
    let mut enc = Encoder::new(2, 7, &polys);
    let bits = enc.encode_len(msg.len());
    let mut encoded = vec![0u8; bits.div_ceil(8)];
    enc.encode(&msg, &mut encoded).unwrap();
    let soft: Vec<u8> = (0..bits).map(|i| if sent_bit(&encoded, i) { 255 } else { 0 }).collect();
    let mut shim = Shim::<2, 7>::new(320, &polys);
    let mut out = [0u8; 64];
    assert_eq!(shim.receive(&mut out), 0);
    shim.decode(&soft);
    let mut first = [0u8; 10];
    assert_eq!(shim.receive(&mut first), 10);
    assert_eq!(first, msg[..10]);
    assert_eq!(shim.receive(&mut out), 30);
    assert_eq!(out[..30], msg[10..]);
    shim.init();
    assert_eq!(shim.receive(&mut out), 0);
    // a block that cannot be decoded advances all the same
    shim.decode(&[0u8; 33]);
    assert_eq!(shim.receive(&mut out), 1);
}

#[test]
fn shim_restores_blocks() {
    let data: Vec<u8> = (0..100u8).collect();
    let pad = 123;
    let mut enc = RsEncoder::new_ccsds();
    let mut dec = RsDecoder::new_ccsds();
    let mut parity = [0u8; 32];
    encode_rs_8(&mut enc, &data, &mut parity);
    let mut block = data.clone();
    block.extend_from_slice(&parity);
    for i in 0..16 {
        block[i * 8] ^= 0x5a;
    }
    assert_eq!(decode_rs_8(&mut dec, &mut block, &[], pad), 16);
    assert_eq!(block[..100], data);
    for i in 0..32 {
        block[i * 3] ^= 0xa5;
    }
    let erased: Vec<i32> = (0..32).map(|i| i * 3 + pad).collect();
    assert_eq!(block.len(), 132);
    block[100..].copy_from_slice(&parity);
    assert_eq!(decode_rs_8(&mut dec, &mut block, &erased, pad), 32);
    assert_eq!(block[..100], data);
    assert_eq!(decode_rs_8(&mut dec, &mut block, &[], 223), -1);
    assert_eq!(decode_rs_8(&mut dec, &mut block, &vec![pad; 33], pad), -1);

    encode_rs_ccsds(&mut enc, &data, &mut parity);
    let mut expected = [0u8; 32];
    enc.encode_ccsds_dual(&data, &mut expected).unwrap();
    assert_eq!(parity, expected);
    let mut block = data.clone();
    block.extend_from_slice(&parity);
    block[7] ^= 1;
    assert_eq!(decode_rs_ccsds(&mut dec, &mut block, &[], pad), 1);
    assert_eq!(block[..100], data);
    assert_eq!(decode_rs_ccsds(&mut dec, &mut block, &[], -1), -1);
}

#[test]
fn shim_codec_of_other_parameters() {
    assert!(RsShim::init_rs_char(7, 0x187, 1, 1, 32, 0).is_none());
    let mut rs = RsShim::init_rs_char(8, 0x11d, 1, 1, 8, 47).unwrap();
    assert_eq!(rs.lengths(), (200, 8));
    let msg: Vec<u8> = (0..200u8).map(|i| i ^ 0x33).collect();
    let mut parity = [0u8; 8];
    rs.encode_rs_char(&msg, &mut parity);
    let mut block = msg.clone();
    block.extend_from_slice(&parity);
    block[0] ^= 9;
    block[199] ^= 9;
    assert_eq!(rs.decode_rs_char(&mut block, &[47]), 2);
    assert_eq!(block[..200], msg);
    for i in 0..5 {
        block[i * 40] ^= 0x77;
    }
    assert_eq!(rs.decode_rs_char(&mut block, &[]), -1);
}

/// With a gap of 3, positions 85 apart share a point: an error is located at the
/// first of them.
#[test]
fn shared_points_are_located_first() {
    let mut enc = RsEncoder::new(0x187, 1, 3, 8);
    let mut dec = RsDecoder::new(0x187, 1, 3, 8);
    let msg: Vec<u8> = (0..200u8).collect();
    let mut block = vec![0u8; 208];
    enc.encode(&msg, &mut block).unwrap();

    let mut out = vec![0u8; 200];
    let mut bad = block.clone();
    bad[207] ^= 0x55;
    assert_eq!(dec.decode(&bad, &mut out), Ok(1));
    assert_eq!(out, msg);

    // coefficient 85 is taken for coefficient 0
    let mut bad = block.clone();
    bad[207 - 85] ^= 0x55;
    assert_eq!(dec.decode(&bad, &mut out), Ok(1));
    assert_eq!(out, bad[..200].to_vec());
}

#[test]
fn neutral_symbols_are_erased() {
    let mut rng = Rng::new(5);
    let mut msg = vec![0u8; 300];
    rng.fill(&mut msg);
    let mut enc = Encoder::new(2, 7, &NASA);
    let bits = enc.encode_len(msg.len());
    let mut encoded = vec![0u8; bits.div_ceil(8)];
    enc.encode(&msg, &mut encoded).unwrap();
    let mut soft: Vec<u8> =
        (0..bits).map(|i| if sent_bit(&encoded, i) { 140 } else { 115 }).collect();
    let mut erasure = vec![0u8; bits.div_ceil(8)];
    for i in 0..bits {
        // five neutral symbols, then five full ones and ten weak ones
        if i % 20 < 5 {
            soft[i] = NEUTRAL_SYMBOL;
            erasure[i / 8] |= 0x80 >> (i % 8);
        } else if i % 20 < 10 {
            soft[i] = if sent_bit(&encoded, i) { 255 } else { 0 };
        }
    }
    let mut scalar = Decoder::new(2, 7, &NASA);
    let mut simd = SimdDecoder::<2, 7>::new(&NASA);
    let mut outs = vec![vec![0u8; 300]; 4];
    scalar.decode_soft(&soft, &mut outs[0]).unwrap();
    simd.decode_soft(&soft, &mut outs[1]).unwrap();
    scalar.decode_soft_with_erasure(&soft, &erasure, &mut outs[2]).unwrap();
    simd.decode_soft_with_erasure(&soft, &erasure, &mut outs[3]).unwrap();
    for out in &outs {
        assert_eq!(out, &msg);
    }

    // nothing but neutral symbols says nothing: every path costs the same
    let nothing = vec![NEUTRAL_SYMBOL; bits];
    let mut other = vec![0u8; 300];
    let all = vec![0xffu8; bits.div_ceil(8)];
    scalar.decode_soft(&nothing, &mut outs[0]).unwrap();
    scalar.decode_soft_with_erasure(&soft, &all, &mut other).unwrap();
    assert_eq!(outs[0], other);
}

#[test]
fn empty_message_is_flushed() {
    let mut enc = Encoder::new(2, 7, &NASA);
    let mut dst = [0xffu8; 2];
    assert_eq!(enc.encode(&[], &mut dst), Ok(16));
    assert_eq!(dst, [0, 0]);
    // too short a block to decode
    let mut dec = Decoder::new(2, 7, &NASA);
    assert_eq!(
        dec.decode_hard(&dst, 16, &mut []),
        Err(DecodeError::InvalidLength { num_encoded_bits: 16, rate: 2 })
    );
}

#[test]
fn outputs_of_many_polynomials() {
    let polys: Vec<u16> = (0..16).map(|i| 1u16 << (i % 4)).collect();
    let table = conv_poly_table(16, 4, &polys);
    assert_eq!(table.len(), 16);
    for (s, &out) in table.iter().enumerate() {
        assert_eq!(out, s as u16 * 0x1111);
    }
    assert_eq!(conv_poly_table(9, 4, &[0o17; 9])[1], 0x1ff);
}

#[test]
fn renormalizing_keeps_differences() {
    let table = ConvolutionalHistoryTable::new(35, 700, 64, 64, 64);
    let mut distances: Vec<u16> = (0..64).map(|i| 100 + 7 * i).collect();
    distances[9] = 40;
    let before = distances.clone();
    table.renormalize(&mut distances, 9);
    for i in 0..64 {
        assert_eq!(distances[i], before[i] - 40);
    }
}

#[test]
fn row_of_the_current_step() {
    let mut table = ConvolutionalHistoryTable::new(35, 700, 64, 64, 64);
    assert_eq!(table.get_slice(), [0u8; 64]);
    table.get_slice()[5] = 1;
    let row = table.get_slice();
    assert_eq!(row.iter().position(|&b| b != 0), Some(5));
    assert_eq!(row.len(), 64);
}

/// A message that is followed by its `order - 1` zero bits alone.
#[test]
fn shim_decodes_every_byte_of_a_short_tail() {
    let polys = [0o657u16, 0o435];
    for len in [2usize, 3, 40, 1000] {
        let mut msg = vec![0u8; len];
        Rng::new(len as u64).fill(&mut msg);
        let mut enc = Encoder::new(2, 9, &polys);
        let mut encoded = vec![0u8; enc.encode_len(len).div_ceil(8)];
        enc.encode(&msg, &mut encoded).unwrap();
        let symbols = 2 * (8 * len + 8);
        let soft: Vec<u8> =
            (0..symbols).map(|i| if sent_bit(&encoded, i) { 255 } else { 0 }).collect();
        let mut shim = Shim::<2, 9>::new(8 * len, &polys);
        shim.decode(&soft);
        let mut out = vec![0xaau8; len + 1];
        assert_eq!(shim.receive(&mut out), len);
        assert_eq!(out[..len], msg[..]);
    }
}

#[test]
fn long_blocks_are_corrected() {
    let mut rng = Rng::new(31);
    let mut msg = vec![0u8; 4000];
    rng.fill(&mut msg);
    let mut enc = Encoder::new(2, 7, &NASA);
    let bits = enc.encode_len(msg.len());
    let mut encoded = vec![0u8; bits.div_ceil(8)];
    enc.encode(&msg, &mut encoded).unwrap();
    // pairs of errors, far enough apart
    for i in 0..bits / 200 {
        for bit in [200 * i, 200 * i + 1] {
            encoded[bit / 8] ^= 0x80 >> (bit % 8);
        }
    }
    let soft: Vec<u8> = (0..bits).map(|i| if sent_bit(&encoded, i) { 200 } else { 70 }).collect();
    let mut dec = Decoder::new(2, 7, &NASA);
    let mut out = vec![0u8; 4000];
    assert_eq!(dec.decode_hard(&encoded, bits, &mut out), Ok(4000));
    assert_eq!(out, msg);
    out.fill(0);
    assert_eq!(dec.decode_soft(&soft, &mut out), Ok(4000));
    assert_eq!(out, msg);
}

#[test]
fn tested_codes_withstand_one_error_per_window() {
    let codes: [(u32, u32, &[u16]); 11] = [
        (2, 4, &[0o017, 0o013]),
        (2, 5, &[0o027, 0o023]),
        (2, 6, &[0o065, 0o057]),
        (2, 7, &[0o155, 0o117]),
        (2, 8, &[0o367, 0o225]),
        (2, 9, &[0o657, 0o435]),
        (2, 10, &[0o1627, 0o1063]),
        (3, 9, &[0o755, 0o633, 0o447]),
        (4, 7, &[0o133, 0o175, 0o107, 0o101]),
        (7, 7, &[0o155, 0o117, 0o123, 0o161, 0o127, 0o133, 0o145]),
        (8, 7, &[0o155, 0o117, 0o123, 0o161, 0o127, 0o133, 0o145, 0o171]),
    ];
    for (rate, order, polys) in codes {
        assert_eq!(withstands_interval(rate, order, polys, 2000), Some(true), "{polys:?}");
    }
}

#[test]
fn long_code_withstands_one_error_per_window() {
    let polys = [0o42631, 0o47245, 0o56507, 0o73363, 0o77267, 0o64537];
    assert_eq!(withstands_interval(6, 15, &polys, 2000), Some(true));
}

#[test]
fn weak_codes_do_not_withstand() {
    // both encoded bits repeat the message bit: a difference of one bit weighs 2
    assert_eq!(withstands_interval(2, 4, &[1, 1], 2000), Some(false));
    // no encoded bit tells anything
    assert_eq!(withstands_interval(2, 4, &[0, 0], 2000), Some(false));
    // a longer look would show it
    assert_eq!(withstands_interval(2, 7, &NASA, 10), None);
}

#[test]
fn pairs_share_their_costs() {
    let table = conv_poly_table(2, 7, &NASA);
    let mut pairs = ConvolutionalPairTable::new(2, 7, &table);
    let keys = pairs.keys().to_vec();
    assert_eq!(keys.len(), 64);
    let distances = [3u16, 500, 41, 65535];
    let packed = pairs.distances(&distances).to_vec();
    assert!(packed.len() <= 16);
    for s in 0..64 {
        let (first, second) = (table[2 * s] as usize, table[2 * s + 1] as usize);
        let word = (distances[second] as u32) << 16 | distances[first] as u32;
        assert_eq!(packed[keys[s] as usize], word);
    }
    // a rate above what the decoders take
    let polys: Vec<u16> = (0..12).map(|i| 1u16 << (i % 3)).collect();
    let table = conv_poly_table(12, 3, &polys);
    let mut pairs = ConvolutionalPairTable::new(12, 3, &table);
    let keys = pairs.keys().to_vec();
    let distances: Vec<u16> = (0..4096).collect();
    let packed = pairs.distances(&distances);
    for s in 0..4 {
        let word = (table[2 * s + 1] as u32) << 16 | table[2 * s] as u32;
        assert_eq!(packed[keys[s] as usize], word);
    }
}

#[test]
fn counts_that_fit() {
    assert!(can_count(2, 7));
    assert!(can_count(9, 15));
    assert!(!can_count(200, 15));
    assert_eq!(candidate_count(9, 3), 10);
}

#[test]
fn puncturer_at_the_root() {
    let keep = [true, false, true];
    assert_eq!(ConvPuncturer::new(&keep).unwrap(), Puncturer::new(&keep).unwrap());
}

/// What a polynomial taps past the register is never seen.
#[test]
fn polynomials_past_the_register() {
    assert_eq!(evaluate_free_distance(2, 2, &[0b10111, 0b11001]), Some(3));
    assert_eq!(evaluate_free_distance(2, 3, &[0b10011, 0b11101]), Some(4));
    assert_eq!(evaluate_free_distance(2, 2, &[0b111, 0b1101]), Some(3));
}
