use first_principles::checkpoint::token_fingerprint;
use first_principles::decoder::{Config, Rng};
use first_principles::training::{
    decode_trainer, encode_trainer, plan_accumulation, validate_state, validate_train, TrainConfig,
    TrainerState,
};

fn small() -> Config {
    Config { vocab_size: 256, context: 4, width: 8, heads: 2, layers: 1, ff_width: 12 }
}

fn state() -> TrainerState {
    let n = small().parameter_count().unwrap();
    TrainerState {
        config: small(),
        train: TrainConfig::default(),
        step: 3,
        data_cursor: 5,
        rng_state: 9,
        data_fingerprint: 0,
        parameters: (0..n).map(|i| (i as f32 * 0.001 - 1.0).to_bits()).collect(),
        m: vec![(-0.25f32).to_bits(); n],
        v: vec![0.5f32.to_bits(); n],
    }
}

fn settings(f: impl Fn(&mut TrainConfig)) -> TrainConfig {
    let mut c = TrainConfig::default();
    f(&mut c);
    c
}

#[test]
fn default_settings_are_the_documented_values() {
    let c = TrainConfig::default();
    assert_eq!(c.peak_learning_rate_bits, 2e-3f32.to_bits());
    assert_eq!(c.min_learning_rate_bits, 2e-4f32.to_bits());
    assert_eq!(c.weight_decay_bits, 0.01f32.to_bits());
    assert_eq!(c.beta1_bits, 0.9f32.to_bits());
    assert_eq!(c.beta2_bits, 0.999f32.to_bits());
    assert_eq!(c.epsilon_bits, 1e-8f32.to_bits());
    assert_eq!(c.clip_norm_bits, 1.0f32.to_bits());
    assert_eq!((c.warmup_steps, c.total_steps), (5, 100));
    assert_eq!(validate_train(c), Ok(()));
}

#[test]
fn optimizer_settings_are_checked_as_numbers() {
    let bad = Err("invalid optimizer configuration");
    assert_eq!(validate_train(settings(|c| c.peak_learning_rate_bits = f32::NAN.to_bits())), bad);
    assert_eq!(validate_train(settings(|c| c.clip_norm_bits = f32::INFINITY.to_bits())), bad);
    assert_eq!(validate_train(settings(|c| c.peak_learning_rate_bits = 0.0f32.to_bits())), bad);
    assert_eq!(validate_train(settings(|c| c.min_learning_rate_bits = 3e-3f32.to_bits())), bad);
    assert_eq!(validate_train(settings(|c| c.min_learning_rate_bits = (-1e-4f32).to_bits())), bad);
    assert_eq!(validate_train(settings(|c| c.min_learning_rate_bits = (-0.0f32).to_bits())), Ok(()));
    assert_eq!(validate_train(settings(|c| c.min_learning_rate_bits = 2e-3f32.to_bits())), Ok(()));
    assert_eq!(validate_train(settings(|c| c.weight_decay_bits = (-0.01f32).to_bits())), bad);
    assert_eq!(validate_train(settings(|c| c.beta1_bits = 1.0f32.to_bits())), bad);
    assert_eq!(validate_train(settings(|c| c.beta2_bits = 0.0f32.to_bits())), Ok(()));
    assert_eq!(validate_train(settings(|c| c.beta2_bits = (-0.5f32).to_bits())), bad);
    assert_eq!(validate_train(settings(|c| c.epsilon_bits = (-0.0f32).to_bits())), bad);
    assert_eq!(validate_train(settings(|c| c.total_steps = 0)), bad);
    assert_eq!(validate_train(settings(|c| c.warmup_steps = 101)), bad);
    assert_eq!(validate_train(settings(|c| c.warmup_steps = 100)), Ok(()));
}

#[test]
fn trainer_state_needs_matching_finite_buffers() {
    assert_eq!(validate_state(&state()), Ok(()));
    let mut s = state();
    s.m.pop();
    assert_eq!(validate_state(&s), Err("trainer state is invalid"));
    let mut s = state();
    s.v[3] = (-1e-9f32).to_bits();
    assert_eq!(validate_state(&s), Err("trainer state is invalid"));
    let mut s = state();
    s.v[3] = (-0.0f32).to_bits();
    assert_eq!(validate_state(&s), Ok(()));
    let mut s = state();
    s.parameters[0] = f32::NAN.to_bits();
    assert_eq!(validate_state(&s), Err("trainer state is invalid"));
    let mut s = state();
    s.train.total_steps = 0;
    assert_eq!(validate_state(&s), Err("invalid optimizer configuration"));
    assert_eq!(state().memory_bytes(), 3 * 4932 * 4);
}

#[test]
fn saved_trainer_reads_back_bit_for_bit() {
    let s = state();
    let bytes = encode_trainer(&s).unwrap();
    assert_eq!(bytes.len(), 140 + 12 * 4932);
    assert_eq!(&bytes[..8], b"CH38LM02");
    assert_eq!(&bytes[8..16], &256u64.to_le_bytes());
    assert_eq!(&bytes[56..60], &2e-3f32.to_le_bytes());
    assert_eq!(&bytes[132..140], &4932u64.to_le_bytes());
    let back = decode_trainer(&bytes).unwrap();
    assert_eq!(back.config, s.config);
    assert_eq!(back.train, s.train);
    assert_eq!((back.step, back.data_cursor, back.rng_state, back.data_fingerprint), (3, 5, 9, 0));
    assert_eq!(back.parameters, s.parameters);
    assert_eq!(back.m, s.m);
    assert_eq!(back.v, s.v);
}

#[test]
fn malformed_checkpoint_is_rejected_before_allocation() {
    assert!(decode_trainer(b"CH38LM02").is_err());
    assert_eq!(decode_trainer(b"CH38LM02").err(), Some("truncated checkpoint"));
}

#[test]
fn corrupt_trainer_files_name_their_fault() {
    let good = encode_trainer(&state()).unwrap();
    let mut corrupt = good.clone();
    let end = corrupt.len();
    corrupt[end - 4..].copy_from_slice(&(-1.0f32).to_le_bytes());
    assert_eq!(decode_trainer(&corrupt).err(), Some("checkpoint length or values are invalid"));
    let mut trailing = good.clone();
    trailing.push(0);
    assert_eq!(decode_trainer(&trailing).err(), Some("checkpoint length does not match parameter count"));
    let mut header = good.clone();
    header[7] = b'1';
    assert_eq!(decode_trainer(&header).err(), Some("bad checkpoint header"));
    let mut zero_rng = good.clone();
    zero_rng[116..124].copy_from_slice(&0u64.to_le_bytes());
    assert_eq!(decode_trainer(&zero_rng).err(), Some("RNG state cannot be zero"));
    let mut count = good.clone();
    count[132..140].copy_from_slice(&4931u64.to_le_bytes());
    assert_eq!(decode_trainer(&count).err(), Some("checkpoint parameter count does not match dimensions"));
    let mut heads = good.clone();
    heads[32..40].copy_from_slice(&3u64.to_le_bytes());
    assert_eq!(decode_trainer(&heads).err(), Some("width must be divisible by heads"));
    let mut beta = good.clone();
    beta[68..72].copy_from_slice(&1.5f32.to_le_bytes());
    assert_eq!(decode_trainer(&beta).err(), Some("invalid optimizer configuration"));
    assert_eq!(decode_trainer(&good[..139]).err(), Some("truncated checkpoint"));
    let mut s = state();
    s.v[0] = f32::NAN.to_bits();
    assert_eq!(encode_trainer(&s).err(), Some("trainer state is invalid"));
}

#[test]
fn accumulation_walks_the_data_in_windows() {
    let data: Vec<usize> = b"abcabcabcabc".iter().map(|&x| x as usize).collect();
    let plan = plan_accumulation(&state(), &data, 4, 2).unwrap();
    assert_eq!(plan.starts, vec![5, 1]);
    assert_eq!(plan.data_cursor, 5);
    let mut rng = Rng::new(9);
    rng.next_u64();
    rng.next_u64();
    assert_eq!(plan.rng_state, rng.state());
    assert_eq!(plan.data_fingerprint, token_fingerprint(&data));
    let mut fresh = state();
    fresh.data_cursor = 0;
    let plan = plan_accumulation(&fresh, &data, 4, 3).unwrap();
    assert_eq!(plan.starts, vec![0, 4, 0]);
    assert_eq!(plan.data_cursor, 4);
}

#[test]
fn accumulation_refuses_bad_windows_and_other_data() {
    let data: Vec<usize> = b"abcabcabcabc".iter().map(|&x| x as usize).collect();
    let bad = Some("invalid accumulation dimensions or corpus too short");
    assert_eq!(plan_accumulation(&state(), &data, 0, 2).err(), bad);
    assert_eq!(plan_accumulation(&state(), &data, 5, 2).err(), bad);
    assert_eq!(plan_accumulation(&state(), &data, 4, 0).err(), bad);
    assert_eq!(plan_accumulation(&state(), &data[..4], 4, 1).err(), bad);
    let mut trained = state();
    trained.data_fingerprint = token_fingerprint(&data);
    assert!(plan_accumulation(&trained, &data, 4, 1).is_ok());
    let other: Vec<usize> = b"xyzxyzxyzxyz".iter().map(|&x| x as usize).collect();
    assert_eq!(plan_accumulation(&trained, &other, 4, 1).err(), Some("training data differs from checkpoint"));
    let mut far = state();
    far.data_cursor = usize::MAX;
    assert_eq!(plan_accumulation(&far, &data, 4, 1).err(), Some("data cursor overflow"));
}
