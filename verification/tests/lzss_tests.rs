//! Round-trip and robustness tests for the LZSS codec.

use rvbank::lzss::{decode, encode};
use rvbank::errors::DecodeError;

fn roundtrip(data: &[u8]) {
    let packed = encode(data);
    assert!(packed.len() <= data.len() + (data.len() + 7) / 8 + 1);
    let unpacked = decode(&packed, data.len()).expect("decode failed");
    assert_eq!(unpacked, data);
}

#[test]
fn roundtrip_empty() {
    let packed = encode(&[]);
    assert_eq!(packed.len(), 0);
    let unpacked = decode(&packed, 0).expect("decode failed");
    assert!(unpacked.is_empty());
}

#[test]
fn roundtrip_single_byte() {
    roundtrip(&[0x41]);
}

#[test]
fn roundtrip_short_text() {
    roundtrip(b"hello, bank world. hello, bank world. hello again.");
}

#[test]
fn roundtrip_all_byte_values() {
    let data: Vec<u8> = (0u16..256).map(|v| v as u8).collect();
    roundtrip(&data);
}

#[test]
fn roundtrip_window_wraparound() {
    // More than one window of patterned data, so the ring wraps.
    let mut data = Vec::new();
    for i in 0..9000u32 {
        data.push((i % 251) as u8);
        data.push((i % 7) as u8);
    }
    roundtrip(&data);
}

#[test]
fn roundtrip_long_runs() {
    let mut data = vec![0x20; 5000];
    data.extend_from_slice(&[1, 2, 3, 4, 5]);
    data.extend(vec![0xAB; 4500]);
    roundtrip(&data);
}

#[test]
fn repeated_bytes_shrink() {
    // Twenty identical bytes must compress to fewer than twenty, through a
    // back-reference, and come back intact.
    let data = [0x41u8; 20];
    let packed = encode(&data);
    assert!(packed.len() < 20);
    let unpacked = decode(&packed, 20).expect("decode failed");
    assert_eq!(unpacked, data);
}

#[test]
fn expansion_stays_bounded() {
    // A worst case for literals: incompressible noise.
    let data: Vec<u8> = (0..4096u32).map(|i| (i.wrapping_mul(2654435761) >> 13) as u8).collect();
    let packed = encode(&data);
    assert!(packed.len() <= data.len() + (data.len() + 7) / 8 + 1);
    let unpacked = decode(&packed, data.len()).expect("decode failed");
    assert_eq!(unpacked, data);
}

#[test]
fn truncated_stream_is_reported() {
    // A control byte announcing a literal, with the literal missing.
    let r = decode(&[0x01], 1);
    assert_eq!(r, Err(DecodeError::TruncatedInput));
}

#[test]
fn truncated_reference_is_reported() {
    // A control byte announcing a back-reference with only one data byte.
    let r = decode(&[0x00, 0x10], 4);
    assert_eq!(r, Err(DecodeError::TruncatedInput));
}

#[test]
fn empty_stream_with_demand_is_reported() {
    let r = decode(&[], 3);
    assert_eq!(r, Err(DecodeError::TruncatedInput));
}

#[test]
fn overlong_reference_is_overflow() {
    // A back-reference promising three bytes when only one is owed.
    let r = decode(&[0x00, 0x10, 0x00], 1);
    assert_eq!(r, Err(DecodeError::Overflow));
}

#[test]
fn decode_reads_fill_window() {
    // A back-reference into the untouched window yields fill bytes.
    let r = decode(&[0x00, 0x01, 0x00], 3).expect("decode failed");
    assert_eq!(r, vec![0x20, 0x20, 0x20]);
}

#[test]
fn truncated_copy_of_real_stream() {
    let data = b"abcabcabcabcabcabc";
    let packed = encode(data);
    let cut = &packed[..packed.len() - 1];
    let r = decode(cut, data.len());
    assert!(r.is_err());
}
