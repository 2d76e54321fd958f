use nhvsampler::utils::cache::{decode_features, encode_features, parse_frq, MEL_BANDS};

fn make_frq(f0s_hz: &[f32], samples_per_frq: i32) -> Vec<u8> {
    let mut b = Vec::new();
    b.extend_from_slice(b"FREQ0003");
    b.extend_from_slice(&samples_per_frq.to_le_bytes());
    b.extend_from_slice(&[0u8; 24]);
    b.extend_from_slice(&(f0s_hz.len() as i32).to_le_bytes());
    for &hz in f0s_hz {
        for _ in 0..3 {
            b.extend_from_slice(&0.0f32.to_le_bytes());
        }
        b.extend_from_slice(&((hz / 100.0) as f32).to_le_bytes());
    }
    b
}

#[test]
fn parse_frq_known_values() {
    let fd = parse_frq(&make_frq(&[200.0, 0.0, 440.0], 128), 3).expect("load");
    assert_eq!(fd.samples_per_frame, 128);
    assert_eq!(fd.f0_bits, vec![2.0f32.to_bits(), 0.0f32.to_bits(), 4.4f32.to_bits()]);
}

#[test]
fn parse_frq_rejects_non_magic() {
    assert!(parse_frq(b"NOTFREQ0........", 3).is_none());
    let mut b = make_frq(&[200.0], 128);
    b[7] = b'4';
    assert!(parse_frq(&b, 1).is_none());
}

#[test]
fn parse_frq_rejects_bad_size() {
    let mut b = make_frq(&[200.0, 300.0], 256);
    b.pop();
    assert!(parse_frq(&b, 2).is_none());
}

#[test]
fn parse_frq_zero_frames_rejected() {
    assert!(parse_frq(&make_frq(&[], 256), 1).is_none());
}

#[test]
fn parse_frq_zero_samples_or_outputs_rejected() {
    assert!(parse_frq(&make_frq(&[200.0], 0), 1).is_none());
    assert!(parse_frq(&make_frq(&[200.0], 256), 0).is_none());
}

#[test]
fn parse_frq_negative_frame_count_rejected() {
    let mut b = make_frq(&[200.0], 256);
    b[36..40].copy_from_slice(&(-1i32).to_le_bytes());
    assert!(parse_frq(&b, 1).is_none());
}

#[test]
fn parse_frq_all_frames() {
    let f0s: Vec<f32> = (0..121).map(|i| 250.0 + i as f32).collect();
    let fd = parse_frq(&make_frq(&f0s, 256), 242).expect("load");
    assert_eq!(fd.f0_bits.len(), 121);
    assert!(fd.f0_bits.iter().all(|&b| f32::from_bits(b) > 0.0));
}

#[test]
fn cache_roundtrip() {
    let cols = 11;
    let codes: Vec<u16> = (0..MEL_BANDS * cols).map(|i| (i * 7919 % 65536) as u16).collect();
    let uv: Vec<bool> = (0..cols).map(|i| i % 3 == 0).collect();
    let bytes = encode_features(cols, 0x3f80_0000, &codes, &uv);
    assert_eq!(bytes.len(), 8 + 256 * cols + 2);
    assert_eq!(&bytes[0..4], &(cols as u32).to_le_bytes());
    assert_eq!(&bytes[4..8], &1.0f32.to_le_bytes());
    assert_eq!(bytes[8 + 256 * cols], 0b0100_1001);
    assert_eq!(bytes[8 + 256 * cols + 1], 0b0000_0010);
    let fc = decode_features(&bytes).expect("decode");
    assert_eq!(fc.cols, cols);
    assert_eq!(fc.scale_bits, 0x3f80_0000);
    assert_eq!(fc.mel_codes, codes);
    assert_eq!(fc.unvoiced, uv);
}

#[test]
fn cache_zero_columns() {
    let bytes = encode_features(0, 7, &[], &[]);
    assert_eq!(bytes.len(), 8);
    let fc = decode_features(&bytes).expect("decode");
    assert_eq!(fc.cols, 0);
    assert_eq!(fc.scale_bits, 7);
    assert!(fc.mel_codes.is_empty() && fc.unvoiced.is_empty());
}

#[test]
fn cache_rejects_wrong_size() {
    let bytes = encode_features(3, 0, &vec![1u16; MEL_BANDS * 3], &[true, false, true]);
    assert!(decode_features(&bytes[..bytes.len() - 1]).is_none());
    let mut longer = bytes.clone();
    longer.push(0);
    assert!(decode_features(&longer).is_none());
    assert!(decode_features(&[1, 2, 3]).is_none());
}

#[test]
fn cache_little_endian_codes() {
    let bytes = encode_features(1, 0, &vec![0x1234u16; MEL_BANDS], &[true]);
    assert_eq!(bytes[8], 0x34);
    assert_eq!(bytes[9], 0x12);
    assert_eq!(bytes[8 + 256], 1);
}

#[test]
fn cache_rewrite_gives_same_bytes() {
    let cols = 5;
    let mut bytes = vec![0u8; 8 + 256 * cols + 1];
    bytes[0..4].copy_from_slice(&(cols as u32).to_le_bytes());
    bytes[4..8].copy_from_slice(&0.25f32.to_le_bytes());
    for (i, b) in bytes[8..8 + 256 * cols].iter_mut().enumerate() {
        *b = (i * 31 % 251) as u8;
    }
    bytes[8 + 256 * cols] = 0b0001_0110;
    let fc = decode_features(&bytes).expect("decode");
    assert_eq!(fc.unvoiced, vec![false, true, true, false, true]);
    assert_eq!(encode_features(fc.cols, fc.scale_bits, &fc.mel_codes, &fc.unvoiced), bytes);
}
