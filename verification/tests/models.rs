use first_principles::checkpoint::{decode_checkpoint, encode_checkpoint, token_fingerprint, Checkpoint, Identity, Reader};
use first_principles::decoder::{self, Config};
use first_principles::moe::{self, Layout, Shape};

fn tiny39() -> Config {
    Config { vocab_size: 256, context: 12, width: 16, heads: 2, layers: 1, ff_width: 32 }
}

#[test]
fn large_count_is_exact() {
    assert_eq!(Config::approximately_15m().parameter_count().unwrap(), 14_442_496);
}

#[test]
fn impossible_config_is_rejected_before_allocation() {
    assert!(Config { vocab_size: usize::MAX, context: 1, width: 2, heads: 1, layers: 1, ff_width: 2 }
        .parameter_count()
        .is_err());
}

#[test]
fn width_must_split_across_heads() {
    let c = Config { vocab_size: 8, context: 2, width: 3, heads: 2, layers: 1, ff_width: 4 };
    assert!(c.validate().is_err());
    assert!(c.parameter_count().is_err());
}

#[test]
fn published_parameter_counts_are_exact() {
    let tiny = tiny39();
    assert_eq!(tiny.vocab_size, 256);
    assert_eq!(tiny.parameter_count().unwrap(), 10_896);
    let large = Config::approximately_15m();
    assert_eq!(large.vocab_size, 256);
    assert_eq!(large.parameter_count().unwrap(), 14_442_496);
}

#[test]
fn decoder_spans_tile_the_buffer() {
    let c = tiny39();
    let layout = decoder::Layout::new(c);
    let spans = layout.parameter_spans();
    assert_eq!(spans[0].name, "token_embedding");
    assert_eq!(spans[2].name, "layer.0.ln1_gain");
    assert_eq!(spans.last().unwrap().name, "output_bias");
    assert_eq!(spans[0].start, 0);
    for pair in spans.windows(2) {
        assert_eq!(pair[0].end, pair[1].start);
    }
    assert_eq!(spans.last().unwrap().end, layout.total);
    assert_eq!(layout.total, c.parameter_count().unwrap());
}

#[test]
fn decoder_rng_is_xorshift_and_never_zero() {
    let mut rng = decoder::Rng::new(0);
    assert_ne!(rng.state(), 0);
    let mut seeded = decoder::Rng::new(1);
    let x = seeded.next_u64();
    let mut y = 1u64;
    y ^= y << 13;
    y ^= y >> 7;
    y ^= y << 17;
    assert_eq!(x, y);
    assert_eq!(seeded.state(), y);
    assert!(decoder::Rng::from_state(0).is_err());
    let resumed = decoder::Rng::from_state(seeded.state()).unwrap();
    assert_eq!(resumed.state(), seeded.state());
    let _ = rng.next_u64();
}

#[test]
fn token_validation_bounds_length_and_ids() {
    let c = tiny39();
    assert!(decoder::validate_tokens(c, &[1, 2]).is_ok());
    assert!(decoder::validate_tokens(c, &[]).is_err());
    assert!(decoder::validate_tokens(c, &[256]).is_err());
}

#[test]
fn parameter_span_abi_is_stable() {
    let s = Shape { vocab_size: 3, context: 2, width: 2, ff_width: 3, experts: 2 };
    assert!(moe::validate_shape(s).is_ok());
    let layout = Layout::new(s);
    let expected = [
        ("norm1", 10, 14),
        ("norm2", 14, 18),
        ("norm_final", 18, 22),
        ("token_embedding", 0, 6),
        ("position_embedding", 6, 10),
        ("qkv_weight", 22, 34),
        ("qkv_bias", 34, 40),
        ("attention_output_weight", 40, 44),
        ("attention_output_bias", 44, 46),
        ("router_weight", 46, 50),
        ("router_bias", 50, 52),
        ("expert.0.ff1_weight", 52, 58),
        ("expert.0.ff1_bias", 58, 61),
        ("expert.0.ff2_weight", 61, 67),
        ("expert.0.ff2_bias", 67, 69),
        ("expert.1.ff1_weight", 69, 75),
        ("expert.1.ff1_bias", 75, 78),
        ("expert.1.ff2_weight", 78, 84),
        ("expert.1.ff2_bias", 84, 86),
        ("output_weight", 86, 92),
        ("output_bias", 92, 95),
    ];
    let spans = layout.parameter_spans();
    assert_eq!(spans.len(), expected.len());
    for (span, &(name, start, end)) in spans.iter().zip(&expected) {
        assert_eq!((span.name.as_str(), span.start, span.end), (name, start, end));
    }
    assert_eq!(layout.total_parameters(), 95);
    assert_eq!(layout.active_parameters_per_token(s), 78);
    let tiny = Shape::tiny(3);
    let tiny_layout = Layout::new(tiny);
    assert_eq!(tiny_layout.total_parameters(), 3_303);
    assert_eq!(tiny_layout.active_parameters_per_token(tiny), 2_879);
}

#[test]
fn one_expert_has_no_router() {
    let s = Shape::tiny(1);
    let layout = Layout::new(s);
    assert_eq!(layout.router_w.start, layout.router_w.end);
    assert_eq!(layout.router_b.start, layout.router_b.end);
    assert_eq!(layout.active_parameters_per_token(s), layout.total_parameters());
}

#[test]
fn shape_validation_bounds_storage() {
    assert_eq!(moe::validate_shape(Shape::tiny(0)).err().map(|e| e.0), Some("invalid model dimensions or routing settings"));
    let big = Shape { vocab_size: 100_000, context: 16, width: 100, ff_width: 12, experts: 1 };
    assert_eq!(
        moe::validate_shape(big).err().map(|e| e.0),
        Some("reference model exceeds eight million storage elements")
    );
    let huge = Shape { vocab_size: usize::MAX, context: 16, width: 8, ff_width: 12, experts: 1 };
    assert_eq!(moe::validate_shape(huge).err().map(|e| e.0), Some("dimension overflow"));
    assert!(moe::validate_tokens(Shape::tiny(2), &[]).is_err());
    assert!(moe::validate_tokens(Shape::tiny(2), &[127]).is_ok());
}

#[test]
fn moe_rng_replaces_zero_and_steps_by_xorshift() {
    assert_eq!(moe::Rng::new(0).state(), 1);
    assert_eq!(moe::Rng::new(9).state(), 9);
    let mut g = moe::Rng::new(1);
    let bits = g.next_fraction_bits();
    let mut y = 1u64;
    y ^= y << 13;
    y ^= y >> 7;
    y ^= y << 17;
    assert_eq!(g.state(), y);
    assert_eq!(bits, y >> 11);
    assert_eq!(moe::Rng::new(g.state()), g);
}

#[test]
fn training_cursor_wraps_and_matches_step_count() {
    let data = b"rust routes tokens. rust learns words. ";
    let (input, targets) = moe::training_batch(data, data.len() - 2, 4);
    assert_eq!(input, vec![b'.' as usize, b' ' as usize, b'r' as usize, b'u' as usize]);
    assert_eq!(targets, vec![b' ' as usize, b'r' as usize, b'u' as usize, b's' as usize]);
    let mut cursor = 0;
    for step in 1..=10u64 {
        cursor = moe::advance_cursor(cursor, 8, data.len());
        assert!(moe::cursor_matches_step(step, 8, data.len(), cursor));
    }
    assert_eq!(moe::check_train_step(1, 4, 16, 0, 0).err().map(|e| e.0), Some("training data and sequence length are invalid"));
    assert_eq!(moe::check_train_step(10, 4, 16, 10, 0).err().map(|e| e.0), Some("invalid training cursor or exhausted step counter"));
    assert!(moe::check_train_step(10, 4, 16, 9, 3).is_ok());
    assert_eq!(moe::fingerprint(b"a"), 0xaf63dc4c8601ec8c);
}

fn checkpoint(step: u64) -> Checkpoint {
    let shape = Shape::tiny(3);
    let total = Layout::new(shape).total_parameters();
    let data = b"rust routes tokens. rust learns words. ";
    let training = if step == 0 {
        None
    } else {
        Some(Identity {
            fingerprint: moe::fingerprint(data),
            length: data.len(),
            sequence: 8,
            learning_rate_bits: 0.05f64.to_bits(),
        })
    };
    Checkpoint {
        shape,
        capacity_factor_bits: 1.25f64.to_bits(),
        balance_weight_bits: 0.01f64.to_bits(),
        step,
        cursor: ((step as usize) * 8) % data.len(),
        rng_state: 9,
        training,
        parameters: (0..total).map(|i| (i as f64 * 0.001 - 0.5).to_bits()).collect(),
    }
}

#[test]
fn checkpoint_bytes_read_back_exactly() {
    for step in [0u64, 3] {
        let c = checkpoint(step);
        let bytes = encode_checkpoint(&c).unwrap();
        assert_eq!(&bytes[..8], b"CH56MOE2");
        assert_eq!(bytes.len(), 128 + 8 * c.parameters.len());
        let back = decode_checkpoint(&bytes).unwrap();
        assert_eq!(back.shape, c.shape);
        assert_eq!((back.step, back.cursor, back.rng_state), (c.step, c.cursor, c.rng_state));
        assert_eq!(back.training, c.training);
        assert_eq!(back.parameters, c.parameters);
        assert_eq!(back.capacity_factor_bits, c.capacity_factor_bits);
    }
}

#[test]
fn hostile_checkpoints_are_refused() {
    let c = checkpoint(3);
    let bytes = encode_checkpoint(&c).unwrap();
    assert_eq!(decode_checkpoint(&bytes[..5]).err(), Some("truncated checkpoint"));
    let mut bad = bytes.clone();
    bad[0] = b'X';
    assert_eq!(decode_checkpoint(&bad).err(), Some("bad checkpoint header"));
    let mut zero_rng = bytes.clone();
    zero_rng[80..88].copy_from_slice(&0u64.to_le_bytes());
    assert_eq!(decode_checkpoint(&zero_rng).err(), Some("invalid zero RNG state"));
    let mut cursor = bytes.clone();
    cursor[72..80].copy_from_slice(&1u64.to_le_bytes());
    assert_eq!(decode_checkpoint(&cursor).err(), Some("checkpoint cursor is inconsistent with step"));
    let mut nan = bytes.clone();
    nan[128..136].copy_from_slice(&f64::NAN.to_bits().to_le_bytes());
    assert_eq!(decode_checkpoint(&nan).err(), Some("checkpoint contains nonfinite parameters"));
    assert_eq!(decode_checkpoint(&bytes[..bytes.len() - 8]).err(), Some("checkpoint length does not match model shape"));
    let mut wide = bytes.clone();
    wide[8..16].copy_from_slice(&u64::MAX.to_le_bytes());
    assert!(decode_checkpoint(&wide).is_err());
    let mut untrained = checkpoint(0);
    untrained.cursor = 1;
    assert_eq!(encode_checkpoint(&untrained).err(), Some("inconsistent training state cannot be saved"));
    let mut infinite = checkpoint(0);
    infinite.parameters[0] = f64::INFINITY.to_bits();
    assert_eq!(encode_checkpoint(&infinite).err(), Some("cannot save nonfinite parameters"));
    let mut negative = checkpoint(0);
    negative.balance_weight_bits = (-0.5f64).to_bits();
    assert_eq!(encode_checkpoint(&negative).err(), Some("invalid model dimensions or routing settings"));
}

#[test]
fn checkpoints_that_could_not_be_read_back_are_not_saved() {
    let mut zero = checkpoint(3);
    zero.rng_state = 0;
    assert_eq!(encode_checkpoint(&zero).err(), Some("invalid zero RNG state"));
    let mut short = checkpoint(3);
    short.parameters.pop();
    assert_eq!(encode_checkpoint(&short).err(), Some("checkpoint length does not match model shape"));
    let mut long = checkpoint(0);
    long.parameters.push(0);
    assert_eq!(encode_checkpoint(&long).err(), Some("checkpoint length does not match model shape"));
}

#[test]
fn reader_reads_little_endian_fields() {
    let mut bytes = Vec::new();
    bytes.extend_from_slice(&5u64.to_le_bytes());
    bytes.extend_from_slice(&2.5f64.to_le_bytes());
    bytes.extend_from_slice(&1.5f32.to_le_bytes());
    let mut r = Reader::new(&bytes);
    assert_eq!(r.usize(), Ok(5));
    assert_eq!(r.f64_bits().map(f64::from_bits), Ok(2.5));
    assert_eq!(r.f32_bits().map(f32::from_bits), Ok(1.5));
    assert_eq!(r.u64(), Err("truncated checkpoint"));
    assert_eq!(r.take(1).err(), Some("truncated checkpoint"));
    assert_eq!(r.take(0).map(|s| s.len()), Ok(0));
}

#[test]
fn token_fingerprint_hashes_little_endian_ids() {
    let bytes: Vec<u8> = [1usize, 300].iter().flat_map(|x| (*x as u64).to_le_bytes()).collect();
    assert_eq!(token_fingerprint(&[1, 300]), moe::fingerprint(&bytes));
    assert_eq!(token_fingerprint(&[]), 0xcbf29ce484222325);
}

#[test]
fn listed_spans_partition_the_parameter_buffer() {
    let s = Shape::tiny(3);
    let layout = Layout::new(s);
    let spans = layout.parameter_spans();
    assert_eq!(spans.len(), 13 + 4 * 3);
    for i in 0..spans.len() {
        for j in 0..spans.len() {
            if i != j {
                assert_ne!(spans[i].name, spans[j].name);
                assert!(spans[i].end <= spans[j].start || spans[j].end <= spans[i].start);
            }
        }
    }
    let mut ranges: Vec<(usize, usize)> = spans.iter().map(|sp| (sp.start, sp.end)).collect();
    ranges.sort();
    let mut at = 0;
    for (start, end) in ranges {
        assert_eq!(start, at);
        at = end;
    }
    assert_eq!(at, layout.total_parameters());
    assert_eq!(spans[9].name, "router_weight");
    assert_eq!(spans[9].end - spans[9].start, s.width * 3);
    assert_eq!(spans[10].name, "router_bias");
    assert_eq!(spans[10].end - spans[10].start, 3);
    for k in 0..3 {
        let ff1 = &spans[11 + 4 * k];
        let ff2 = &spans[11 + 4 * k + 2];
        assert_eq!(ff1.name, format!("expert.{k}.ff1_weight"));
        assert_eq!(ff1.end - ff1.start, s.width * s.ff_width);
        assert_eq!(ff2.name, format!("expert.{k}.ff2_weight"));
        assert_eq!(ff2.end - ff2.start, s.ff_width * s.width);
    }
}
