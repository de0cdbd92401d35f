use first_principles::attention::{offset, validate_shape, Shape};
use first_principles::kernels::{
    bytes_for_f32, checked_matmul_lengths, choose_adapter, dispatch_count, read_u32_words, read_u64_words,
    tile_count, transferred_floats, AdapterFacts,
};
use first_principles::quant::{check_quant_shape, PackedWeights};

#[test]
fn invalid_dimensions_are_rejected_without_a_gpu() {
    assert!(checked_matmul_lengths(0, 2, 3).is_err());
    assert!(checked_matmul_lengths(usize::MAX, 2, 1).is_err());
}

#[test]
fn matmul_lengths_are_the_three_products() {
    assert_eq!(checked_matmul_lengths(3, 17, 5), Ok((51, 85, 15)));
    assert_eq!(checked_matmul_lengths(0, 2, 3), Err("m, k, and n must be nonzero"));
    assert_eq!(checked_matmul_lengths(usize::MAX, 2, 1), Err("matrix shape overflows usize"));
}

#[test]
fn odd_inner_dimension_keeps_last_tile() {
    assert_eq!(
        tile_count(17),
        2,
        "guided repair: floor division drops the partial K tile"
    );
}

#[test]
fn tiles_cover_exact_multiples_without_a_spare() {
    assert_eq!(tile_count(0), 0);
    assert_eq!(tile_count(16), 1);
    assert_eq!(tile_count(32), 2);
    assert_eq!(tile_count(33), 3);
}

#[test]
fn fusion_removes_intermediate_round_trip() {
    assert_eq!(
        transferred_floats(100, false),
        400,
        "guided repair: separate kernels transfer the intermediate twice"
    );
    assert_eq!(
        transferred_floats(100, true),
        200,
        "guided repair: fused kernels read input and write output once"
    );
}

#[test]
fn dispatch_covers_every_element() {
    assert_eq!(dispatch_count(65_537, 64), 1_025);
    assert_eq!(dispatch_count(64, 64), 1);
    assert_eq!(dispatch_count(0, 64), 0);
}

#[test]
fn buffer_sizes_are_four_bytes_per_float() {
    assert_eq!(bytes_for_f32(3), Ok(12));
    assert_eq!(bytes_for_f32(usize::MAX), Err("buffer size overflow"));
}

#[test]
fn mapped_words_follow_their_byte_order() {
    let mut bytes = Vec::new();
    bytes.extend_from_slice(&7u64.to_le_bytes());
    bytes.extend_from_slice(&0x0102_0304_0506_0708u64.to_le_bytes());
    bytes.push(0xff);
    assert_eq!(read_u64_words(&bytes, 5), vec![7, 0x0102_0304_0506_0708]);
    assert_eq!(read_u64_words(&bytes, 1), vec![7]);
    let mut floats: Vec<u8> = [1.5f32, -2.0, 4.0].iter().flat_map(|x| x.to_ne_bytes()).collect();
    floats.push(0xff);
    let words = read_u32_words(&floats, 5);
    assert_eq!(words.iter().map(|w| f32::from_bits(*w)).collect::<Vec<_>>(), vec![1.5, -2.0, 4.0]);
    let words = read_u32_words(&floats[1..], 1);
    assert_eq!(words, vec![u32::from_ne_bytes([floats[1], floats[2], floats[3], floats[4]])]);
}

#[test]
fn packing_round_trips_signed_int4() {
    let values: [i8; 5] = [-7, -1, 0, 3, 7];
    let q = PackedWeights::pack(&values, 4);
    assert_eq!((0..5).map(|i| q.value(i)).collect::<Vec<_>>(), [-7, -1, 0, 3, 7]);
    assert_eq!(q.data.len(), 3);
}

#[test]
fn int8_storage_is_one_byte_per_value() {
    let values: [i8; 4] = [-128, -1, 0, 127];
    let q = PackedWeights::pack(&values, 8);
    assert_eq!(q.data, vec![0x80, 0xff, 0x00, 0x7f]);
    assert_eq!((0..4).map(|i| q.value(i)).collect::<Vec<_>>(), values.to_vec());
    assert!(PackedWeights::pack(&values, 4).storage_bytes(1) < q.storage_bytes(1));
}

#[test]
fn quantization_shapes_are_checked() {
    assert_eq!(check_quant_shape(1, 1, 2, 8), Err("weights must be a nonempty [rows, cols] matrix"));
    assert_eq!(check_quant_shape(4, 2, 2, 3), Err("only int8 and int4 are supported"));
    assert_eq!(check_quant_shape(4, 2, 2, 4), Ok(()));
}

#[test]
fn attention_offsets_are_row_major() {
    assert_eq!(offset(0, 0, 0, 4, 8), 0);
    assert_eq!(offset(1, 2, 3, 4, 8), (1 * 4 + 2) * 8 + 3);
    let s = Shape { tokens: 2, query_heads: 4, kv_heads: 2, head_dim: 3 };
    assert_eq!(validate_shape(s, 24, 12, 12), Ok(()));
    assert_eq!(validate_shape(s, 24, 12, 11), Err("Q, K, or V shape mismatch"));
    let bad = Shape { tokens: 2, query_heads: 3, kv_heads: 2, head_dim: 3 };
    assert_eq!(
        validate_shape(bad, 18, 12, 12),
        Err("dimensions must be positive and query_heads divisible by kv_heads")
    );
    let huge = Shape { tokens: usize::MAX, query_heads: 2, kv_heads: 1, head_dim: 1 };
    assert_eq!(validate_shape(huge, 0, 0, 0), Err("attention shape overflow"));
}

fn adapter(vulkan: bool, cpu: bool, discrete: bool) -> AdapterFacts {
    AdapterFacts { vulkan, cpu, discrete }
}

#[test]
fn adapter_choice_skips_cpu_and_non_vulkan_devices() {
    assert_eq!(choose_adapter(&[]), None);
    assert_eq!(choose_adapter(&[adapter(false, false, true), adapter(true, true, false)]), None);
    assert_eq!(choose_adapter(&[adapter(true, true, true), adapter(true, false, false)]), Some(1));
}

#[test]
fn adapter_choice_prefers_a_discrete_gpu_and_the_last_of_ties() {
    let integrated = adapter(true, false, false);
    let discrete = adapter(true, false, true);
    assert_eq!(choose_adapter(&[discrete, integrated]), Some(0));
    assert_eq!(choose_adapter(&[integrated, discrete, discrete]), Some(2));
    assert_eq!(choose_adapter(&[integrated, integrated]), Some(1));
    assert_eq!(choose_adapter(&[integrated, discrete, integrated, adapter(false, false, true)]), Some(1));
}
