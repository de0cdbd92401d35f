use first_principles::splits::{
    check_evaluation, evaluation_blocks, has_overlap, next_token_windows, share_passage,
    validate_split,
};

#[test]
fn targets_are_shifted_one_token() {
    let d = [1, 2, 3, 4, 5];
    let w = next_token_windows(&d, 2);
    assert_eq!(
        w,
        vec![
            (&d[0..2], &d[1..3]),
            (&d[1..3], &d[2..4]),
            (&d[2..4], &d[3..5])
        ]
    );
}

#[test]
fn short_streams_have_no_windows() {
    let d = [1, 2];
    assert!(next_token_windows(&d, 2).is_empty());
    assert_eq!(next_token_windows(&d, 1).len(), 1);
}

#[test]
fn split_guard_rejects_equal_or_shared_passages() {
    assert!(validate_split(b"same", b"same").is_err());
    assert!(validate_split(
        b"prefix abcdefghijklmnopqrstuvwxyz012345 suffix",
        b"abcdefghijklmnopqrstuvwxyz012345 different"
    )
    .is_err());
    assert!(validate_split(b"training words", b"held out words").is_ok());
}

#[test]
fn split_guard_names_its_reason() {
    assert_eq!(validate_split(b"same", b"same"), Err("train and held-out text must differ"));
    assert_eq!(
        validate_split(
            b"prefix abcdefghijklmnopqrstuvwxyz012345 suffix",
            b"abcdefghijklmnopqrstuvwxyz012345 different"
        ),
        Err("train and held-out text share a 32-byte passage")
    );
}

#[test]
fn overlap_detects_copies_and_shared_passages() {
    assert!(has_overlap(&[b'x'; 40], &[b'x'; 40]));
    assert!(has_overlap(
        b"prefix abcdefghijklmnopqrstuvwxyz012345 suffix",
        b"abcdefghijklmnopqrstuvwxyz012345 different"
    ));
    assert!(!has_overlap(b"abcdefghijklmnopqrstuvwxyz01234", b"abcdefghijklmnopqrstuvwxyz01234 "));
    assert!(has_overlap(b"", b""));
    let long: Vec<u8> = (0..200u8).collect();
    assert!(share_passage(&long[100..140], &long));
    assert!(!share_passage(&long[100..131], &long));
}

#[test]
fn evaluation_blocks_cover_every_target_once() {
    assert_eq!(evaluation_blocks(7, 4, usize::MAX), vec![(0, 4), (4, 2)]);
    assert_eq!(evaluation_blocks(7, 4, 5), vec![(0, 4), (4, 1)]);
    assert_eq!(evaluation_blocks(9, 4, 100), vec![(0, 4), (4, 4)]);
    assert_eq!(evaluation_blocks(2, 3, 10), vec![(0, 1)]);
    assert!(evaluation_blocks(1, 3, 10).is_empty());
}

#[test]
fn evaluation_arguments_are_checked_in_order() {
    let bad = Err("validation needs a positive model-compatible context and token budget");
    assert_eq!(check_evaluation(10, 0, 8, 5), bad);
    assert_eq!(check_evaluation(10, 9, 8, 5), bad);
    assert_eq!(check_evaluation(10, 4, 8, 0), bad);
    assert_eq!(check_evaluation(1, 0, 8, 5), bad);
    assert_eq!(check_evaluation(1, 4, 8, 5), Err("validation text needs at least two bytes"));
    assert_eq!(check_evaluation(2, 8, 8, 1), Ok(()));
}
