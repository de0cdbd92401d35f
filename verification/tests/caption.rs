use first_principles::caption::caption_features;

#[test]
fn captions_count_their_direction_words() {
    assert_eq!(caption_features("two vertical pixels"), Ok([1, 0, 0]));
    assert!(caption_features("unknown description").is_err());
    assert_eq!(
        caption_features("unknown description"),
        Err("caption contains none of the three vocabulary words")
    );
}

#[test]
fn punctuation_around_words_is_ignored() {
    assert_eq!(caption_features("\"Diagonal\"? no: (diagonal), horizontal!\tvertical."), Ok([1, 1, 1]));
    assert_eq!(caption_features("--horizontal-- horizontal\r\nhorizontal"), Ok([0, 3, 0]));
    assert_eq!(caption_features("diagonal-ish diag onal"), Err("caption contains none of the three vocabulary words"));
    assert_eq!(caption_features("vertical\x0bvertical"), Err("caption contains none of the three vocabulary words"));
}

#[test]
fn captions_must_be_nonempty_ascii() {
    assert_eq!(caption_features(""), Err("caption must be nonempty ASCII text"));
    assert_eq!(caption_features("vertical é"), Err("caption must be nonempty ASCII text"));
}
