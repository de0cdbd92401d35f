use first_principles::bpe::{merge_pair, Bpe, MAX_MERGES};
use first_principles::ngrams::{byte_bigrams, char_trigrams, most_likely_after};

#[test]
fn ngrams_respect_units() {
    assert_eq!(byte_bigrams("é".as_bytes()).len(), 1);
    assert!(char_trigrams("aé中b").contains_key("aé中"));
}

#[test]
fn ngram_counts_are_exact() {
    let b = byte_bigrams(b"abab");
    assert_eq!(b.get((b'a', b'b')), Some(2));
    assert_eq!(b.get((b'b', b'a')), Some(1));
    assert_eq!(b.get((b'b', b'b')), None);
    let t = char_trigrams("aaaa");
    assert_eq!(t.get("aaa"), Some(2));
    assert_eq!(t.len(), 1);
}

#[test]
fn predicts_from_counts() {
    assert_eq!(most_likely_after(b"ababac", b'a'), Some(b'b'));
}

#[test]
fn prediction_ties_go_to_the_smallest_byte_and_unseen_gives_none() {
    assert_eq!(most_likely_after(b"acab", b'a'), Some(b'b'));
    assert_eq!(most_likely_after(b"abc", b'z'), None);
    assert_eq!(most_likely_after(b"c", b'c'), None);
}

#[test]
fn equal_frequency_pairs_use_lexicographically_smallest_pair() {
    let b = Bpe::train(b"banana", 1).unwrap();
    assert_eq!(b.merges()[0], (b'a' as u16, b'n' as u16));
}

#[test]
fn multilingual_round_trip() {
    for s in ["hello", "café", "咖啡", "🙂a"] {
        let b = Bpe::train(s.as_bytes(), 10).unwrap();
        assert_eq!(b.decode(&b.encode(s.as_bytes())).unwrap(), s.as_bytes());
    }
}

#[test]
fn merges_non_overlapping_pairs() {
    assert_eq!(merge_pair(&[1, 2, 1, 2, 2], (1, 2), 9), vec![9, 9, 2]);
}

#[test]
fn serialized_rules_parse_back() {
    let b = Bpe::train(b"banana banana", 8).unwrap();
    let text = b.serialize();
    assert!(text.starts_with("BYTE_BPE_V1\n"));
    assert_eq!(Bpe::parse(&text).unwrap(), b);
}

#[test]
fn invalid_and_expanding_rule_files_are_refused() {
    assert!(Bpe::parse("BYTE_BPE_V1\n999 0\n").is_err());
    assert!(Bpe::parse("wrong\n").is_err());
    assert!(Bpe::train(b"x", MAX_MERGES + 1).is_err());
    let b = Bpe::train(b"abc", 0).unwrap();
    assert!(b.decode(&[999]).is_err());
    let mut doubling = String::from("BYTE_BPE_V1\n97 97\n");
    for id in 256..280 {
        doubling.push_str(&format!("{id} {id}\n"));
    }
    assert!(Bpe::parse(&doubling).is_err());
}

#[test]
fn training_stops_when_no_pair_repeats() {
    let b = Bpe::train(b"abcd", 5).unwrap();
    assert!(b.merges().is_empty());
    assert_eq!(b.vocab().len(), 256);
    assert_eq!(b.encode(b"abcd"), vec![97, 98, 99, 100]);
}

#[test]
fn bad_merge_ids_report_the_integer_parse_error() {
    let message = |text: &str| Bpe::parse(text).err().map(|e| e.message());
    assert_eq!(message("BYTE_BPE_V1\n9x 0\n"), Some("invalid digit found in string"));
    assert_eq!(message("BYTE_BPE_V1\n97 -1\n"), Some("invalid digit found in string"));
    assert_eq!(message("BYTE_BPE_V1\n+ 97\n"), Some("invalid digit found in string"));
    assert_eq!(message("BYTE_BPE_V1\n70000 97\n"), Some("number too large to fit in target type"));
    assert_eq!(message("BYTE_BPE_V1\n97 99999x\n"), Some("number too large to fit in target type"));
    assert_eq!(message("BYTE_BPE_V1\n97 x99999\n"), Some("invalid digit found in string"));
    assert_eq!(message("BYTE_BPE_V1\n+97 +98\n"), None);
}
