//! The Reed-Solomon encoder and the dual basis.

use fec::reed_solomon::ccsds::{CONV_TO_DUAL, DUAL_TO_CONV};
use fec::reed_solomon::field::FieldOperation;
use fec::reed_solomon::{EncodeError, Encoder};

#[test]
fn tables_are_inverses() {
    for i in 0..256usize {
        assert_eq!(DUAL_TO_CONV[CONV_TO_DUAL[i] as usize], i as u8);
        assert_eq!(CONV_TO_DUAL[DUAL_TO_CONV[i] as usize], i as u8);
    }
}

#[test]
fn matches_ccsds_table_d1_anchors() {
    // conventional byte -> dual byte
    assert_eq!(CONV_TO_DUAL[0x00], 0x00);
    assert_eq!(CONV_TO_DUAL[0x01], 0x7b); // alpha^0
    assert_eq!(CONV_TO_DUAL[0x02], 0xaf); // alpha^1
    assert_eq!(CONV_TO_DUAL[0x04], 0x99); // alpha^2
    assert_eq!(CONV_TO_DUAL[0x80], 0x8d); // alpha^7
    assert_eq!(CONV_TO_DUAL[0xc3], 0xb6); // alpha^254
}

// ccsds primitive poly, first_consecutive_root=1, gap=1
const CCSDS: FieldOperation = 0x187;

#[test]
fn encode_full_message() {
    let mut enc = Encoder::new(CCSDS, 1, 1, 32);
    let msg: Vec<u8> = (0..223u16).map(|i| i as u8).collect();
    let mut encoded = vec![0u8; 255];
    assert_eq!(enc.encode(&msg, &mut encoded), Ok(255));

    // message bytes pass through unchanged
    assert_eq!(&encoded[..223], &msg[..]);
    // the 32 parity bytes
    let parity: [u8; 32] = [
        250, 21, 66, 72, 244, 243, 22, 41, 243, 8, 201, 34, 14, 179, 56, 133, 151, 84, 252, 148, 217, 13, 168, 24,
        78, 91, 75, 252, 226, 117, 76, 40,
    ];
    assert_eq!(&encoded[223..], &parity);
}

#[test]
fn encode_short_message() {
    let mut enc = Encoder::new(CCSDS, 1, 1, 32);
    let msg = [1u8, 2, 3, 4, 5];
    let mut encoded = vec![0u8; 255];
    assert_eq!(enc.encode(&msg, &mut encoded), Ok(255));

    let expected_head: [u8; 37] = [
        1, 2, 3, 4, 5, 205, 175, 54, 99, 247, 95, 68, 232, 240, 77, 62, 244, 127, 118, 152, 110, 225, 154, 248,
        117, 90, 78, 233, 19, 151, 103, 160, 78, 181, 80, 154, 240,
    ];
    // first 5 are the message, next 32 are parity; the rest are zero
    assert_eq!(&encoded[..37], &expected_head);
    assert!(encoded[37..].iter().all(|&b| b == 0));
}

#[test]
fn encode_single_byte() {
    let mut enc = Encoder::new(CCSDS, 1, 1, 32);
    let msg = [0xABu8];
    let mut encoded = vec![0u8; 255];
    assert_eq!(enc.encode(&msg, &mut encoded), Ok(255));

    let expected_head: [u8; 33] = [
        171, 47, 46, 31, 254, 6, 84, 239, 205, 64, 128, 170, 100, 165, 105, 196, 228, 187, 196, 104, 6, 182, 9,
        245, 98, 231, 116, 72, 40, 189, 106, 250, 11,
    ];
    assert_eq!(&encoded[..33], &expected_head);
    assert!(encoded[33..].iter().all(|&b| b == 0));
}

#[test]
fn encode_zeros_gives_zero_parity() {
    // an all-zero message has an all-zero codeword (0 mod g = 0)
    let mut enc = Encoder::new(CCSDS, 1, 1, 32);
    let msg = [0u8; 10];
    let mut encoded = vec![0u8; 255];
    assert_eq!(enc.encode(&msg, &mut encoded), Ok(255));
    assert!(encoded.iter().all(|&b| b == 0));
}

#[test]
fn encode_rejects_oversized_message() {
    let mut enc = Encoder::new(CCSDS, 1, 1, 32);
    let msg = vec![0u8; 224]; // > message_length (223)
    let mut encoded = vec![0u8; 255];
    assert_eq!(enc.encode(&msg, &mut encoded), Err(EncodeError::MessageTooLong));
}

#[test]
fn encoder_message_length_is_block_minus_distance() {
    let enc = Encoder::new(CCSDS, 1, 1, 32);
    assert_eq!(enc.block_length(), 255);
    assert_eq!(enc.min_distance(), 32);
    assert_eq!(enc.message_length(), 223);
}
