use first_principles::dense::{decode_dense, encode_dense};

fn fixture() -> [u32; 6] {
    [0.2f32, -0.4, 0.7, 0.1, 0.05, -0.2].map(f32::to_bits)
}

#[test]
fn checkpoint_rejects_bad_bytes() {
    assert!(decode_dense(b"not a model").is_err());
    assert_eq!(decode_dense(b"not a model"), Err("wrong checkpoint header or length"));
}

#[test]
fn artifact_round_trip_is_exact() {
    let bytes = encode_dense(&fixture()).unwrap();
    assert_eq!(bytes.len(), 35);
    assert_eq!(&bytes[..11], b"CH55DENSE01");
    assert_eq!(&bytes[11..15], &0.2f32.to_le_bytes());
    assert_eq!(&bytes[31..35], &(-0.2f32).to_le_bytes());
    assert_eq!(decode_dense(&bytes), Ok(fixture()));
}

#[test]
fn artifact_needs_exact_length_and_finite_values() {
    let bytes = encode_dense(&fixture()).unwrap();
    let mut longer = bytes.clone();
    longer.push(0);
    assert_eq!(decode_dense(&longer), Err("wrong checkpoint header or length"));
    assert_eq!(decode_dense(&bytes[..34]), Err("wrong checkpoint header or length"));
    let mut nan = bytes.clone();
    nan[15..19].copy_from_slice(&f32::NAN.to_le_bytes());
    assert_eq!(decode_dense(&nan), Err("checkpoint contains a nonfinite value"));
    let mut values = fixture();
    values[5] = f32::INFINITY.to_bits();
    assert_eq!(encode_dense(&values), Err("nonfinite model"));
}
