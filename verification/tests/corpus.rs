use first_principles::corpus::{clean, hash, parse, shingle_overlap, shingles, split};

const COURSE: &str = "Title: Rust notes\nLicense: course-authored CC0\n\nRust makes ownership visible.  Rust makes errors visible.\n\n===DOC===\nTitle: Duplicate\nLicense: course-authored CC0\n\nRust makes ownership visible. Rust makes errors visible.\n\n===DOC===\nTitle: Model notes\nLicense: course-authored CC0\n\nA language model predicts the next token from earlier tokens.\n\n===DOC===\nTitle: Held-out prose\nLicense: course-authored CC0\n\nEvaluation asks whether a model predicts text it did not train on.";

#[test]
fn whole_document_split_is_stable() {
    assert_eq!(split(20), "test");
    assert_eq!(split(21), "validation");
    assert_eq!(split(22), "train");
}

#[test]
fn hash_is_fnv1a() {
    assert_eq!(hash(b""), 0xcbf29ce484222325);
    assert_eq!(hash(b"a"), 0xaf63dc4c8601ec8c);
}

#[test]
fn cleaning_collapses_white_space() {
    assert_eq!(clean("  Rust makes\n\townership   visible. "), "Rust makes ownership visible.");
    assert_eq!(clean(""), "");
    assert_eq!(clean(&clean(" a  b ")), clean(" a  b "));
}

#[test]
fn bundle_parses_into_documents_with_provenance() {
    let docs = parse(COURSE, "fixture").unwrap();
    assert_eq!(docs.len(), 4);
    assert_eq!(docs[0].title, "Rust notes");
    assert_eq!(docs[0].license, "course-authored CC0");
    assert_eq!(docs[0].text, "Rust makes ownership visible. Rust makes errors visible.");
    assert_eq!(docs[1].text, docs[0].text);
    assert_eq!(docs[2].source, "fixture");
    assert_eq!(docs[0].id, hash(format!("{}\n{}", docs[0].title, docs[0].text).as_bytes()));
    assert_ne!(docs[0].id, docs[1].id);
}

#[test]
fn windows_newlines_parse_like_unix_newlines() {
    let unix = parse(COURSE, "x").unwrap();
    let windows = parse(&COURSE.replace('\n', "\r\n"), "x").unwrap();
    assert_eq!(unix.len(), windows.len());
    for (a, b) in unix.iter().zip(&windows) {
        assert_eq!((a.id, &a.title, &a.text), (b.id, &b.title, &b.text));
    }
}

#[test]
fn empty_metadata_is_rejected() {
    assert_eq!(
        parse("Title: \nLicense: CC0\n\ntext", "fixture").err(),
        Some("document title, license, and text must be nonempty")
    );
    assert_eq!(parse("License: CC0\n\ntext", "fixture").err(), Some("document missing Title"));
    assert_eq!(parse("Title: T\n\ntext", "fixture").err(), Some("document missing License"));
    assert_eq!(parse("", "fixture").err(), Some("document missing Title"));
}

#[test]
fn shingles_are_distinct_lowercase_word_triples() {
    let s = shingles("One two THREE one two three");
    let as_strs: Vec<Vec<&str>> = s.iter().map(|t| t.iter().map(String::as_str).collect()).collect();
    assert_eq!(
        as_strs,
        vec![
            vec!["one", "two", "three"],
            vec!["three", "one", "two"],
            vec!["two", "three", "one"],
        ]
    );
    assert!(shingles("one two").is_empty());
}

#[test]
fn shingles_come_in_increasing_order() {
    let s = shingles("zeta alpha beta alpha beta gamma ab a b");
    let as_strs: Vec<Vec<&str>> = s.iter().map(|t| t.iter().map(String::as_str).collect()).collect();
    assert_eq!(
        as_strs,
        vec![
            vec!["ab", "a", "b"],
            vec!["alpha", "beta", "alpha"],
            vec!["alpha", "beta", "gamma"],
            vec!["beta", "alpha", "beta"],
            vec!["beta", "gamma", "ab"],
            vec!["gamma", "ab", "a"],
            vec!["zeta", "alpha", "beta"],
        ]
    );
    let t = shingles("b a a b a ab");
    let as_strs: Vec<Vec<&str>> = t.iter().map(|t| t.iter().map(String::as_str).collect()).collect();
    assert_eq!(as_strs, vec![vec!["a", "a", "b"], vec!["a", "b", "a"], vec!["b", "a", "a"], vec!["b", "a", "ab"]]);
}

#[test]
fn shingle_overlap_counts_shared_and_each_side() {
    assert_eq!(
        shingle_overlap("one two three four five six", "one two three four five six seven"),
        (4, 4, 5)
    );
    assert_eq!(shingle_overlap("one two", "three four"), (0, 0, 0));
}
