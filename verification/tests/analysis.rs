use first_principles::audit::{feature_text, group_counts, PredictionRow};
use first_principles::retrieval::{content_words, overlap, overlap_score, words};
use first_principles::reward::arithmetic_reward;
use first_principles::sparse::from_dense;
use first_principles::timing::median_range;

#[test]
fn verifiable_reward_concentrates_on_correct_action() {
    assert_eq!(arithmetic_reward("2 + 3", 4), Ok(false));
    assert_eq!(arithmetic_reward("2 + 3", 5), Ok(true));
    assert!(arithmetic_reward("two + 3", 5).is_err());
    assert!(arithmetic_reward("9223372036854775807 + 1", 0).is_err());
    assert!(arithmetic_reward("-9223372036854775808 + -1", 0).is_err());
    assert_eq!(arithmetic_reward("-2 + 3", 1), Ok(true));
}

#[test]
fn reward_errors_name_the_bad_part() {
    assert_eq!(arithmetic_reward("2 3", 5), Err("prompt must contain one plus sign"));
    assert_eq!(arithmetic_reward("x + 3", 5), Err("left operand is invalid"));
    assert_eq!(arithmetic_reward("2 + y", 5), Err("right operand is invalid"));
    assert_eq!(arithmetic_reward("9223372036854775807 + 1", 0), Err("arithmetic sum overflows i64"));
    assert_eq!(arithmetic_reward("-9223372036854775808 + 0", i64::MIN), Ok(true));
    assert_eq!(arithmetic_reward("+4 + -4", 0), Err("left operand is invalid"));
    assert_eq!(arithmetic_reward("4 + -4", 0), Ok(true));
}

#[test]
fn conversion_preserves_csr_coordinates_and_empty_rows() {
    let weights: Vec<u64> = [0.0f64, 2.0, 0.0, 0.0, 0.0, 0.0, -3.0, 0.0, 4.0]
        .iter()
        .map(|x| x.to_bits())
        .collect();
    let csr = from_dense(&weights, 3, 3).unwrap();
    assert_eq!((csr.rows, csr.cols), (3, 3));
    assert_eq!(csr.row_ptr, [0, 1, 1, 3]);
    assert_eq!(csr.col_idx, [1, 0, 2]);
    assert_eq!(csr.values.iter().map(|b| f64::from_bits(*b)).collect::<Vec<_>>(), [2.0, -3.0, 4.0]);
}

#[test]
fn csr_refuses_bad_shapes_and_values() {
    assert_eq!(from_dense(&[1.0f64.to_bits()], 1, 2).err(), Some("dense shape must be nonzero and match its data"));
    assert_eq!(from_dense(&[f64::NAN.to_bits()], 1, 1).err(), Some("matrix values must be finite"));
    let negative_zero = from_dense(&[(-0.0f64).to_bits()], 1, 1).unwrap();
    assert!(negative_zero.values.is_empty());
}

#[test]
fn median_range_orders_the_samples() {
    assert_eq!(median_range(vec![30, 10, 20]), (20, 10, 30));
    assert_eq!(median_range(vec![4, 1, 3, 2]), (3, 1, 4));
    assert_eq!(median_range(vec![7]), (7, 7, 7));
}

#[test]
fn group_recall_exposes_difference() {
    let rows = [
        PredictionRow { group: 'A', label: true, predicted: true },
        PredictionRow { group: 'A', label: false, predicted: false },
        PredictionRow { group: 'B', label: true, predicted: false },
        PredictionRow { group: 'B', label: true, predicted: true },
    ];
    let a = group_counts(&rows, 'A').unwrap();
    let b = group_counts(&rows, 'B').unwrap();
    assert_eq!((a.true_positives, a.positives), (1, 1));
    assert_eq!((b.true_positives, b.positives), (1, 2));
    assert_eq!(a.correct, 2);
    assert_eq!(b.negatives, 0);
    assert_eq!(group_counts(&rows, 'C').err(), Some("group has no rows"));
}

#[test]
fn words_are_lowercase_alphanumeric_runs() {
    assert_eq!(words("Paris is the capital, of France!"), vec!["paris", "is", "the", "capital", "of", "france"]);
    assert_eq!(content_words("What is the capital of France?"), vec!["capital", "france"]);
    assert_eq!(overlap("capital France", "Paris is the capital of France"), 2);
    assert_eq!(overlap("capital capital", "the capital"), 2);
    assert_eq!(overlap_score("rust memory", "rust ownership memory safety"), 2);
    assert_eq!(overlap_score("Rust memory", "rust ownership"), 0);
}

#[test]
fn audit_input_fields_are_checked_in_order() {
    let format = Err("expected schema=1,f0=<number>,f1=<number>");
    assert_eq!(feature_text("schema=1,f0=0.5,f1=-2", 0), Ok("0.5".to_string()));
    assert_eq!(feature_text("schema=1,f0=0.5,f1=-2", 1), Ok("-2".to_string()));
    assert_eq!(feature_text("schema=2,f0=0.5,f1=-2", 0), format);
    assert_eq!(feature_text("schema=1,f0=0.5", 0), format);
    assert_eq!(feature_text("schema=1,f0=1,f1=2,f2=3", 1), format);
    assert_eq!(feature_text("schema=1,x=1,f1=2", 0), Err("missing f0"));
    assert_eq!(feature_text("schema=1,x=1,f1=2", 1), Ok("2".to_string()));
    assert_eq!(feature_text("schema=1,f0=1,f2=2", 1), Err("missing f1"));
    assert_eq!(feature_text("schema=1,f0=,f1=2", 0), Ok(String::new()));
}
