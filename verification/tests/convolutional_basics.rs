//! Bits, lengths and the encoder.

use fec::convolutional::bit::{BitReader, BitWriter};
use fec::convolutional::{encoded_len_bits, payload_len_bytes, EncodeError, Encoder};

#[test]
fn round_trips_partial_trailing_byte() {
    for nbits in 1..=64usize {
        let pattern: Vec<u8> = (0..nbits).map(|i| ((i * 5 + 1) % 2) as u8).collect();

        let mut buf = vec![0u8; nbits.div_ceil(8)];
        {
            let mut w = BitWriter::new(&mut buf);
            for &b in &pattern {
                w.write(b, 1);
            }
            w.flush();
        }

        let mut r = BitReader::new(&buf);
        let got: Vec<u8> = (0..nbits).map(|_| r.read(1)).collect();
        assert_eq!(got, pattern, "bit round trip failed at nbits={nbits}");
    }
}

#[test]
fn partial_byte_is_left_aligned() {
    let mut buf = [0u8; 2];
    {
        let mut w = BitWriter::new(&mut buf);
        w.write(1, 1);
        w.write(0, 1);
        w.write(1, 1);
        w.flush();
    }
    // three bits 1,0,1 most significant first
    assert_eq!(buf[0], 0b1010_0000, "got {:08b}", buf[0]);
}

#[test]
fn encode_rejects_small_output() {
    let mut enc = Encoder::new(2, 7, &[0o161, 0o127]);
    let msg = [1u8, 2, 3, 4];
    // one byte short of the encoded block
    let needed = enc.encode_len(msg.len()).div_ceil(8);
    let mut too_small = vec![0u8; needed - 1];
    assert!(matches!(
        enc.encode(&msg, &mut too_small),
        Err(EncodeError::OutputTooSmall { .. })
    ));
}

#[test]
fn length_helpers_round_trip() {
    for rate in 2..=8u32 {
        for order in 4..=16u32 {
            let polys = vec![0o7u16; rate as usize];
            let enc = Encoder::new(rate, order, &polys);
            for len in [0usize, 1, 7, 8, 9, 100, 255, 4096] {
                let bits = encoded_len_bits(rate, order, len);
                assert_eq!(
                    bits,
                    enc.encode_len(len),
                    "helper disagrees with encoder at {rate}/{order} len={len}"
                );
                assert_eq!(
                    payload_len_bytes(rate, order, bits),
                    len,
                    "round trip failed at {rate}/{order} len={len}"
                );
            }
        }
    }
}
