use first_principles::minibatch::{advance, minibatch_indices};

#[test]
fn first_step_takes_the_first_examples_and_moves_the_cursor() {
    assert_eq!(minibatch_indices(6, 3, 0), Ok(vec![0, 1, 2]));
    assert_eq!(advance(0, 0, 3, 6), Ok((1, 3)));
    assert_eq!(minibatch_indices(6, 3, 3), Ok(vec![3, 4, 5]));
    assert_eq!(advance(1, 3, 3, 6), Ok((2, 0)));
}

#[test]
fn minibatches_wrap_around_the_data() {
    assert_eq!(minibatch_indices(6, 3, 4), Ok(vec![4, 5, 0]));
    assert_eq!(advance(7, 4, 3, 6), Ok((8, 1)));
    assert_eq!(minibatch_indices(6, 6, 5), Ok(vec![5, 0, 1, 2, 3, 4]));
}

#[test]
fn exhausted_counters_and_bad_cursors_are_refused() {
    assert_eq!(advance(usize::MAX, 3, 3, 6), Err("training step overflow"));
    assert_eq!(advance(1, usize::MAX, 3, 6), Err("minibatch cursor overflow"));
    assert_eq!(minibatch_indices(6, 3, 99), Err("checkpoint cursor is outside the dataset"));
    assert_eq!(minibatch_indices(6, 0, 0), Err("batch size must be in 1..=data length"));
    assert_eq!(minibatch_indices(6, 7, 0), Err("batch size must be in 1..=data length"));
    assert_eq!(minibatch_indices(0, 1, 0), Err("training data must not be empty"));
}
