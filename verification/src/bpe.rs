//! Byte-level byte-pair encoding: training, encoding, decoding and a
//! line-oriented text format for the merge rules.
use vstd::prelude::*;

use crate::text::{
    chars_of, decimal, is_digit, lemma_decimal, lemma_line_state_append, lemma_parse_decimal,
    lemma_words_of_pair, line_state, strip_cr, extend_bytes, lines, nested_view, parse_unsigned_checked, parse_unsigned_std, lemma_parse_unsigned_std, int_error_text, IntErrorKind,
    push_decimal, split_lines, split_words, string_from_chars, words,
};

verus! {

/// Largest number of merge rules whose ids still fit in `u16`.
pub const MAX_MERGES: usize = 65280;

/// Largest decoded output, in bytes.
pub const MAX_DECODE_BYTES: usize = 67108864;

/// Largest single vocabulary entry accepted when reading merge rules.
pub const MAX_TOKEN_BYTES: usize = 1048576;

/// Largest total vocabulary size, in bytes, accepted when reading merge rules.
pub const MAX_TOTAL_VOCAB_BYTES: usize = 16777216;

/// Why a tokenizer operation was refused.
#[derive(Clone, Copy, Debug, PartialEq, Eq)]
pub enum BpeError {
    /// More merges were requested than `u16` ids can name.
    TooManyMerges,
    /// A token id does not name a vocabulary entry.
    UnknownToken,
    /// Decoding would produce more than `MAX_DECODE_BYTES` bytes.
    OutputTooLong,
    /// The merge-rule text does not start with the expected header line.
    BadHeader,
    /// A merge-rule line lacks its left id.
    MissingLeft,
    /// A merge-rule line lacks its right id.
    MissingRight,
    /// An id in a merge-rule line is not a decimal `u16`; the kind says why,
    /// as `str::parse` reports it.
    BadNumber(IntErrorKind),
    /// A merge-rule line has extra fields or names an id not yet defined.
    InvalidRule,
    /// The merge-rule text defines more rules than ids can name.
    TooManyRules,
    /// A merged entry would exceed `MAX_TOKEN_BYTES`.
    TokenTooLong,
    /// The vocabulary would exceed `MAX_TOTAL_VOCAB_BYTES` in total.
    VocabularyTooLarge,
}

/// The description of each error.
pub open spec fn error_text(e: BpeError) -> &'static str {
    match e {
        BpeError::TooManyMerges => "merge count exceeds u16 vocabulary capacity",
        BpeError::UnknownToken => "token id outside vocabulary",
        BpeError::OutputTooLong => "decoded output exceeds safety limit",
        BpeError::BadHeader => "bad tokenizer header",
        BpeError::MissingLeft => "missing left id",
        BpeError::MissingRight => "missing right id",
        BpeError::BadNumber(k) => int_error_text(k),
        BpeError::InvalidRule => "invalid merge rule",
        BpeError::TooManyRules => "too many merge rules",
        BpeError::TokenTooLong => "expanded token exceeds safety limit",
        BpeError::VocabularyTooLarge => "expanded vocabulary exceeds safety limit",
    }
}

impl BpeError {
    /// A human-readable description of the error.
    pub fn message(&self) -> (m: &'static str)
        ensures
            m == error_text(*self),
    {
        match self {
            BpeError::TooManyMerges => "merge count exceeds u16 vocabulary capacity",
            BpeError::UnknownToken => "token id outside vocabulary",
            BpeError::OutputTooLong => "decoded output exceeds safety limit",
            BpeError::BadHeader => "bad tokenizer header",
            BpeError::MissingLeft => "missing left id",
            BpeError::MissingRight => "missing right id",
            BpeError::BadNumber(k) => k.message(),
            BpeError::InvalidRule => "invalid merge rule",
            BpeError::TooManyRules => "too many merge rules",
            BpeError::TokenTooLong => "expanded token exceeds safety limit",
            BpeError::VocabularyTooLarge => "expanded vocabulary exceeds safety limit",
        }
    }
}

/// Replaces every non-overlapping occurrence of `pair`, scanning left to
/// right, with `new_id`.
pub open spec fn merge_spec(ids: Seq<u16>, pair: (u16, u16), new_id: u16) -> Seq<u16>
    decreases ids.len(),
{
    if ids.len() < 2 {
        ids
    } else if ids[0] == pair.0 && ids[1] == pair.1 {
        seq![new_id] + merge_spec(ids.skip(2), pair, new_id)
    } else {
        seq![ids[0]] + merge_spec(ids.skip(1), pair, new_id)
    }
}

/// Every byte as its own token id.
pub open spec fn byte_ids(bytes: Seq<u8>) -> Seq<u16> {
    bytes.map_values(|b: u8| b as u16)
}

/// The id given to the rule at position `i`.
pub open spec fn rule_id(i: int) -> u16 {
    (256 + i) as u16
}

/// Applies the merge rules in order, rule `i` producing id `256 + i`.
pub open spec fn apply_merges(ids: Seq<u16>, rules: Seq<(u16, u16)>) -> Seq<u16>
    decreases rules.len(),
{
    if rules.len() == 0 {
        ids
    } else {
        merge_spec(
            apply_merges(ids, rules.drop_last()),
            rules.last(),
            rule_id(rules.len() - 1),
        )
    }
}

/// The encoding of `bytes` under `rules`.
pub open spec fn encode_spec(rules: Seq<(u16, u16)>, bytes: Seq<u8>) -> Seq<u16> {
    apply_merges(byte_ids(bytes), rules)
}

/// The 256 single-byte entries every vocabulary starts with.
pub open spec fn base_vocab() -> Seq<Seq<u8>> {
    Seq::new(256, |b: int| seq![b as u8])
}

/// The vocabulary that `rules` define: the byte entries, then one entry per
/// rule, the concatenation of the two entries it joins.
pub open spec fn vocab_for(rules: Seq<(u16, u16)>) -> Seq<Seq<u8>>
    decreases rules.len(),
{
    if rules.len() == 0 {
        base_vocab()
    } else {
        let v = vocab_for(rules.drop_last());
        v.push(v[rules.last().0 as int] + v[rules.last().1 as int])
    }
}

/// Each rule joins two ids that exist before it, and the rule ids fit in `u16`.
pub open spec fn rules_valid(rules: Seq<(u16, u16)>) -> bool {
    &&& rules.len() <= MAX_MERGES
    &&& forall|i: int|
        0 <= i < rules.len() ==> (#[trigger] rules[i]).0 < 256 + i && rules[i].1 < 256 + i
}

/// The bytes that `ids` stand for.
pub open spec fn flatten(vocab: Seq<Seq<u8>>, ids: Seq<u16>) -> Seq<u8>
    decreases ids.len(),
{
    if ids.len() == 0 {
        Seq::empty()
    } else {
        vocab[ids[0] as int] + flatten(vocab, ids.skip(1))
    }
}

/// Decoding left to right: the first unknown id, or the first entry that
/// would take the output past `MAX_DECODE_BYTES`, ends it with an error.
pub open spec fn decode_spec(vocab: Seq<Seq<u8>>, ids: Seq<u16>) -> Result<Seq<u8>, BpeError>
    decreases ids.len(),
{
    if ids.len() == 0 {
        Ok(Seq::empty())
    } else {
        match decode_spec(vocab, ids.drop_last()) {
            Err(e) => Err(e),
            Ok(prefix) => {
                let id = ids.last();
                if id >= vocab.len() {
                    Err(BpeError::UnknownToken)
                } else if prefix.len() + vocab[id as int].len() > MAX_DECODE_BYTES {
                    Err(BpeError::OutputTooLong)
                } else {
                    Ok(prefix + vocab[id as int])
                }
            },
        }
    }
}

/// Every id names an entry of a vocabulary of `n` entries.
pub open spec fn ids_below(ids: Seq<u16>, n: int) -> bool {
    forall|i: int| 0 <= i < ids.len() ==> (#[trigger] ids[i]) < n
}

/// Replaces every non-overlapping matching pair, scanning left to right.
pub fn merge_pair(ids: &[u16], pair: (u16, u16), new_id: u16) -> (out: Vec<u16>)
    ensures
        out@ == merge_spec(ids@, pair, new_id),
{
    let mut out: Vec<u16> = Vec::new();
    let mut i: usize = 0;
    assert(ids@.skip(0) =~= ids@);
    assert(out@ + merge_spec(ids@, pair, new_id) =~= merge_spec(ids@, pair, new_id));
    while i < ids.len()
        invariant
            i <= ids.len(),
            out@ + merge_spec(ids@.skip(i as int), pair, new_id) == merge_spec(ids@, pair, new_id),
        decreases ids.len() - i,
    {
        let ghost rest = ids@.skip(i as int);
        if i + 1 < ids.len() && ids[i] == pair.0 && ids[i + 1] == pair.1 {
            out.push(new_id);
            i += 2;
            assert(rest.skip(2) =~= ids@.skip(i as int));
            assert(out@ + merge_spec(ids@.skip(i as int), pair, new_id) =~= merge_spec(
                ids@,
                pair,
                new_id,
            ));
        } else {
            if i + 1 < ids.len() {
                assert(rest.skip(1) =~= ids@.skip(i + 1));
            } else {
                assert(rest =~= seq![ids[i as int]]);
                assert(rest.skip(1) =~= ids@.skip(i + 1));
                assert(merge_spec(rest.skip(1), pair, new_id) =~= Seq::<u16>::empty());
            }
            out.push(ids[i]);
            i += 1;
            assert(out@ + merge_spec(ids@.skip(i as int), pair, new_id) =~= merge_spec(
                ids@,
                pair,
                new_id,
            ));
        }
    }
    assert(ids@.skip(i as int) =~= Seq::<u16>::empty());
    assert(out@ + Seq::<u16>::empty() =~= out@);
    out
}

/// Merging keeps every id below `n` when the new id is below `n`.
pub proof fn lemma_merge_ids_below(ids: Seq<u16>, pair: (u16, u16), new_id: u16, n: int)
    requires
        ids_below(ids, n),
        new_id < n,
    ensures
        ids_below(merge_spec(ids, pair, new_id), n),
    decreases ids.len(),
{
    if ids.len() >= 2 {
        if ids[0] == pair.0 && ids[1] == pair.1 {
            lemma_merge_ids_below(ids.skip(2), pair, new_id, n);
        } else {
            lemma_merge_ids_below(ids.skip(1), pair, new_id, n);
        }
    }
}

/// Flattening distributes over concatenation.
pub proof fn lemma_flatten_concat(vocab: Seq<Seq<u8>>, a: Seq<u16>, b: Seq<u16>)
    ensures
        flatten(vocab, a + b) == flatten(vocab, a) + flatten(vocab, b),
    decreases a.len(),
{
    if a.len() == 0 {
        assert(a + b =~= b);
        assert(flatten(vocab, a) + flatten(vocab, b) =~= flatten(vocab, b));
    } else {
        assert((a + b).skip(1) =~= a.skip(1) + b);
        lemma_flatten_concat(vocab, a.skip(1), b);
        assert(flatten(vocab, a + b) =~= flatten(vocab, a) + flatten(vocab, b));
    }
}

/// Merging a pair into an id whose entry is the pair's concatenation leaves
/// the bytes the ids stand for unchanged.
pub proof fn lemma_merge_flatten(vocab: Seq<Seq<u8>>, ids: Seq<u16>, pair: (u16, u16), new_id: u16)
    requires
        vocab[new_id as int] == vocab[pair.0 as int] + vocab[pair.1 as int],
    ensures
        flatten(vocab, merge_spec(ids, pair, new_id)) == flatten(vocab, ids),
    decreases ids.len(),
{
    if ids.len() >= 2 {
        if ids[0] == pair.0 && ids[1] == pair.1 {
            lemma_merge_flatten(vocab, ids.skip(2), pair, new_id);
            let m = merge_spec(ids.skip(2), pair, new_id);
            assert((seq![new_id] + m).skip(1) =~= m);
            assert(ids.skip(1).skip(1) =~= ids.skip(2));
            assert(ids.skip(1)[0] == ids[1]);
            assert(flatten(vocab, ids.skip(1)) == vocab[pair.1 as int] + flatten(vocab, ids.skip(2)));
            assert(flatten(vocab, ids) == vocab[pair.0 as int] + (vocab[pair.1 as int] + flatten(
                vocab,
                ids.skip(2),
            )));
            assert(flatten(vocab, ids) =~= (vocab[pair.0 as int] + vocab[pair.1 as int]) + flatten(
                vocab,
                ids.skip(2),
            ));
        } else {
            lemma_merge_flatten(vocab, ids.skip(1), pair, new_id);
            let m = merge_spec(ids.skip(1), pair, new_id);
            assert((seq![ids[0]] + m).skip(1) =~= m);
        }
    }
}

/// The vocabulary of valid rules: 256 + one entry per rule, byte entries
/// are single bytes, and each rule's entry joins the two entries it names.
pub proof fn lemma_vocab_for(rules: Seq<(u16, u16)>)
    requires
        rules_valid(rules),
    ensures
        vocab_for(rules).len() == 256 + rules.len(),
        forall|b: int| 0 <= b < 256 ==> #[trigger] vocab_for(rules)[b] == seq![b as u8],
        forall|i: int|
            0 <= i < rules.len() ==> #[trigger] vocab_for(rules)[256 + i] == vocab_for(rules)[rules[i].0 as int]
                + vocab_for(rules)[rules[i].1 as int],
    decreases rules.len(),
{
    if rules.len() > 0 {
        let prev = rules.drop_last();
        assert(rules_valid(prev)) by {
            assert forall|i: int| 0 <= i < prev.len() implies (#[trigger] prev[i]).0 < 256 + i
                && prev[i].1 < 256 + i by {
                assert(prev[i] == rules[i]);
            }
        }
        lemma_vocab_for(prev);
        let v = vocab_for(prev);
        assert forall|i: int|
            0 <= i < rules.len() implies #[trigger] vocab_for(rules)[256 + i] == vocab_for(
            rules,
        )[rules[i].0 as int] + vocab_for(rules)[rules[i].1 as int] by {
            let last = rules.len() - 1;
            assert(rules[last].0 < 256 + last && rules[last].1 < 256 + last);
            if i < last {
                assert(prev[i] == rules[i]);
                assert(rules[i].0 < 256 + i && rules[i].1 < 256 + i);
            }
        }
    }
}

/// Applying valid rules to byte ids leaves every id inside the vocabulary
/// and leaves the bytes they stand for unchanged.
pub proof fn lemma_apply_merges(bytes: Seq<u8>, rules: Seq<(u16, u16)>)
    requires
        rules_valid(rules),
    ensures
        ids_below(apply_merges(byte_ids(bytes), rules), 256 + rules.len() as int),
        flatten(vocab_for(rules), apply_merges(byte_ids(bytes), rules)) == bytes,
    decreases rules.len(),
{
    lemma_vocab_for(rules);
    if rules.len() == 0 {
        lemma_flatten_bytes(bytes);
    } else {
        let prev = rules.drop_last();
        assert(rules_valid(prev)) by {
            assert forall|i: int| 0 <= i < prev.len() implies (#[trigger] prev[i]).0 < 256 + i
                && prev[i].1 < 256 + i by {
                assert(prev[i] == rules[i]);
            }
        }
        lemma_apply_merges(bytes, prev);
        lemma_vocab_for(prev);
        let ids = apply_merges(byte_ids(bytes), prev);
        let last = rules.len() - 1;
        assert(rules[last].0 < 256 + last);
        lemma_merge_ids_below(ids, rules.last(), rule_id(last), 256 + rules.len() as int);
        assert(ids_below(ids, 256 + rules.len() as int));
        let v = vocab_for(rules);
        lemma_flatten_prefix_vocab(vocab_for(prev), v, ids);
        assert(v[256 + last] == v[rules[last].0 as int] + v[rules[last].1 as int]);
        lemma_merge_flatten(v, ids, rules.last(), rule_id(last));
    }
}

/// Flattening only reads the entries the ids name, so a longer vocabulary
/// that agrees on them gives the same bytes.
pub proof fn lemma_flatten_prefix_vocab(short: Seq<Seq<u8>>, long: Seq<Seq<u8>>, ids: Seq<u16>)
    requires
        short.len() <= long.len(),
        forall|i: int| 0 <= i < short.len() ==> #[trigger] long[i] == short[i],
        ids_below(ids, short.len() as int),
    ensures
        flatten(long, ids) == flatten(short, ids),
    decreases ids.len(),
{
    if ids.len() > 0 {
        lemma_flatten_prefix_vocab(short, long, ids.skip(1));
    }
}

/// Single-byte ids stand for their bytes.
pub proof fn lemma_flatten_bytes(bytes: Seq<u8>)
    ensures
        flatten(base_vocab(), byte_ids(bytes)) == bytes,
        ids_below(byte_ids(bytes), 256),
    decreases bytes.len(),
{
    if bytes.len() > 0 {
        lemma_flatten_bytes(bytes.skip(1));
        assert(byte_ids(bytes).skip(1) =~= byte_ids(bytes.skip(1)));
        assert(bytes =~= seq![bytes[0]] + bytes.skip(1));
    }
}

/// Decoding valid ids whose bytes fit under the limit gives those bytes.
pub proof fn lemma_decode_flatten(vocab: Seq<Seq<u8>>, ids: Seq<u16>)
    requires
        ids_below(ids, vocab.len() as int),
        flatten(vocab, ids).len() <= MAX_DECODE_BYTES,
    ensures
        decode_spec(vocab, ids) == Ok::<Seq<u8>, BpeError>(flatten(vocab, ids)),
    decreases ids.len(),
{
    if ids.len() > 0 {
        let prev = ids.drop_last();
        lemma_flatten_concat(vocab, prev, seq![ids.last()]);
        assert(prev + seq![ids.last()] =~= ids);
        assert(seq![ids.last()].skip(1) =~= Seq::<u16>::empty());
        assert(flatten(vocab, Seq::<u16>::empty()) == Seq::<u8>::empty());
        assert(flatten(vocab, seq![ids.last()]) == vocab[ids.last() as int] + Seq::<u8>::empty());
        assert(flatten(vocab, seq![ids.last()]) =~= vocab[ids.last() as int]);
        lemma_decode_flatten(vocab, prev);
    }
}

/// How often `p` occurs as two adjacent ids of `ids`.
pub open spec fn pair_count(ids: Seq<u16>, p: (u16, u16)) -> nat
    decreases ids.len(),
{
    if ids.len() < 2 {
        0
    } else {
        pair_count(ids.drop_last(), p) + if ids[ids.len() - 2] == p.0 && ids[ids.len() - 1] == p.1 {
            1nat
        } else {
            0nat
        }
    }
}

/// Lexicographic order on pairs of ids.
pub open spec fn pair_le(p: (u16, u16), q: (u16, u16)) -> bool {
    p.0 < q.0 || (p.0 == q.0 && p.1 <= q.1)
}

/// `p` occurs in `ids`, no pair occurs more often, and among the pairs that
/// occur as often `p` is the smallest.
pub open spec fn is_most_frequent(ids: Seq<u16>, p: (u16, u16)) -> bool {
    &&& pair_count(ids, p) > 0
    &&& forall|q: (u16, u16)|
        #[trigger] pair_count(ids, q) < pair_count(ids, p) || (pair_count(ids, q) == pair_count(
            ids,
            p,
        ) && pair_le(p, q))
}

/// A training step on `ids` merges `p`: the most frequent pair, occurring
/// at least twice.
pub open spec fn chooses(ids: Seq<u16>, p: (u16, u16)) -> bool {
    is_most_frequent(ids, p) && pair_count(ids, p) >= 2
}

/// No adjacent pair of ids occurs twice, so training has nothing left to merge.
pub open spec fn no_repeated_pair(ids: Seq<u16>) -> bool {
    forall|q: (u16, u16)| #[trigger] pair_count(ids, q) < 2
}

/// `rules` is what training on `text` with a budget of `merges` rules
/// produces: each rule is the choice made on the text encoded by the rules
/// before it, and training stops early only when no pair repeats.
pub open spec fn trained(text: Seq<u8>, merges: nat, rules: Seq<(u16, u16)>) -> bool {
    &&& rules.len() <= merges
    &&& forall|i: int|
        0 <= i < rules.len() ==> chooses(encode_spec(rules.take(i), text), #[trigger] rules[i])
    &&& rules.len() < merges ==> no_repeated_pair(encode_spec(rules, text))
}

/// The first line of the merge-rule text.
pub open spec fn header() -> Seq<char> {
    seq!['B', 'Y', 'T', 'E', '_', 'B', 'P', 'E', '_', 'V', '1']
}

/// `s` read as a `u16` the way `str::parse::<u16>` reads it.
pub open spec fn parse_u16_spec(s: Seq<char>) -> Result<u16, IntErrorKind> {
    match parse_unsigned_std(s, 65535) {
        Ok(v) => Ok(v as u16),
        Err(k) => Err(k),
    }
}

/// Reads one merge-rule line on top of the rules read so far, whose
/// vocabulary holds `total` bytes.
pub open spec fn rule_line_step(rules: Seq<(u16, u16)>, total: nat, line: Seq<char>) -> Result<
    (Seq<(u16, u16)>, nat),
    BpeError,
> {
    let n = 256 + rules.len();
    let w = words(line);
    if n > 65535 {
        Err(BpeError::TooManyRules)
    } else if w.len() == 0 {
        Err(BpeError::MissingLeft)
    } else {
        match parse_u16_spec(w[0]) {
            Err(k) => Err(BpeError::BadNumber(k)),
            Ok(a) => if w.len() < 2 {
                Err(BpeError::MissingRight)
            } else {
                match parse_u16_spec(w[1]) {
                    Err(k) => Err(BpeError::BadNumber(k)),
                    Ok(b) => if w.len() > 2 || a >= n || b >= n {
                        Err(BpeError::InvalidRule)
                    } else {
                        let v = vocab_for(rules);
                        let len = v[a as int].len() + v[b as int].len();
                        if len > MAX_TOKEN_BYTES {
                            Err(BpeError::TokenTooLong)
                        } else if total + len > MAX_TOTAL_VOCAB_BYTES {
                            Err(BpeError::VocabularyTooLarge)
                        } else {
                            Ok((rules.push((a, b)), total + len))
                        }
                    },
                }
            },
        }
    }
}

/// Reads merge-rule lines in order, stopping at the first refused line; the
/// result carries the rules and the vocabulary size in bytes.
pub open spec fn rules_from_lines(ls: Seq<Seq<char>>) -> Result<(Seq<(u16, u16)>, nat), BpeError>
    decreases ls.len(),
{
    if ls.len() == 0 {
        Ok((Seq::empty(), 256))
    } else {
        match rules_from_lines(ls.drop_last()) {
            Err(e) => Err(e),
            Ok((rules, total)) => rule_line_step(rules, total, ls.last()),
        }
    }
}

/// The merge rules that a merge-rule text holds, or why it is refused.
pub open spec fn parse_spec(text: Seq<char>) -> Result<Seq<(u16, u16)>, BpeError> {
    let ls = lines(text);
    if ls.len() == 0 || ls[0] != header() {
        Err(BpeError::BadHeader)
    } else {
        match rules_from_lines(ls.skip(1)) {
            Ok((rules, _)) => Ok(rules),
            Err(e) => Err(e),
        }
    }
}

/// The text line of one merge rule: both ids in decimal, a space between.
pub open spec fn rule_text(r: (u16, u16)) -> Seq<char> {
    decimal(r.0 as nat) + seq![' '] + decimal(r.1 as nat) + seq!['\n']
}

/// The text lines of the merge rules, in order.
pub open spec fn rules_text(rules: Seq<(u16, u16)>) -> Seq<char>
    decreases rules.len(),
{
    if rules.len() == 0 {
        Seq::empty()
    } else {
        rules_text(rules.drop_last()) + rule_text(rules.last())
    }
}

/// The merge-rule text of `rules`: the header line, then one line per rule.
pub open spec fn serialized(rules: Seq<(u16, u16)>) -> Seq<char> {
    header() + seq!['\n'] + rules_text(rules)
}

/// The contents of a vocabulary held as vectors.
pub open spec fn vocab_view(v: Seq<Vec<u8>>) -> Seq<Seq<u8>> {
    v.map_values(|e: Vec<u8>| e@)
}

/// A pair that occurs in `ids` sits at some position.
pub proof fn lemma_pair_count_position(ids: Seq<u16>, q: (u16, u16))
    requires
        pair_count(ids, q) > 0,
    ensures
        exists|j: int| 0 <= j < ids.len() - 1 && #[trigger] ids[j] == q.0 && ids[j + 1] == q.1,
    decreases ids.len(),
{
    let n = ids.len() - 2;
    if !(ids[n] == q.0 && ids[n + 1] == q.1) {
        lemma_pair_count_position(ids.drop_last(), q);
        let d = ids.drop_last();
        let j = choose|j: int| 0 <= j < d.len() - 1 && #[trigger] d[j] == q.0 && d[j + 1] == q.1;
        assert(ids[j] == q.0 && ids[j + 1] == q.1);
    }
}

/// How often `p` occurs as two adjacent ids of `ids`.
pub fn count_pair(ids: &[u16], p: (u16, u16)) -> (count: usize)
    ensures
        count == pair_count(ids@, p),
{
    let n = ids.len();
    if n < 2 {
        return 0;
    }
    let mut count: usize = if ids[0] == p.0 && ids[1] == p.1 { 1 } else { 0 };
    assert(ids@.take(2).drop_last() =~= ids@.take(1));
    assert(ids@.take(2)[0] == ids@[0] && ids@.take(2)[1] == ids@[1]);
    assert(pair_count(ids@.take(1), p) == 0);
    let mut i: usize = 2;
    while i < n
        invariant
            2 <= i <= n,
            n == ids@.len(),
            count <= i,
            count == pair_count(ids@.take(i as int), p),
        decreases n - i,
    {
        assert(ids@.take(i + 1).drop_last() =~= ids@.take(i as int));
        if ids[i - 1] == p.0 && ids[i] == p.1 {
            count += 1;
        }
        i += 1;
    }
    assert(ids@.take(n as int) =~= ids@);
    count
}

/// The most frequent adjacent pair of `ids` (ties go to the smallest pair)
/// and how often it occurs, or `None` when `ids` has no adjacent pair.
pub fn most_frequent_pair(ids: &[u16]) -> (r: Option<((u16, u16), usize)>)
    ensures
        r is None <==> ids@.len() < 2,
        r matches Some((p, c)) ==> c == pair_count(ids@, p) && is_most_frequent(ids@, p),
{
    let n = ids.len();
    if n < 2 {
        return None;
    }
    let mut best: (u16, u16) = (ids[0], ids[1]);
    let mut best_count: usize = count_pair(ids, best);
    proof {
        assert(ids@.take(2).drop_last() =~= ids@.take(1));
        lemma_pair_count_prefix(ids@, best, 2);
    }
    let mut j: usize = 1;
    while j + 1 < n
        invariant
            1 <= j < n,
            n == ids@.len(),
            best_count == pair_count(ids@, best),
            best_count > 0,
            forall|k: int|
                0 <= k < j ==> #[trigger] pair_count(ids@, (ids@[k], ids@[k + 1])) < best_count || (
                pair_count(ids@, (ids@[k], ids@[k + 1])) == best_count && pair_le(
                    best,
                    (ids@[k], ids@[k + 1]),
                )),
        decreases n - j,
    {
        let candidate = (ids[j], ids[j + 1]);
        let c = count_pair(ids, candidate);
        if c > best_count || (c == best_count && (candidate.0 < best.0 || (candidate.0 == best.0
            && candidate.1 < best.1))) {
            best = candidate;
            best_count = c;
        }
        j += 1;
    }
    assert forall|q: (u16, u16)|
        #[trigger] pair_count(ids@, q) < pair_count(ids@, best) || (pair_count(ids@, q)
            == pair_count(ids@, best) && pair_le(best, q)) by {
        if pair_count(ids@, q) > 0 {
            lemma_pair_count_position(ids@, q);
            let k = choose|k: int|
                0 <= k < ids@.len() - 1 && #[trigger] ids@[k] == q.0 && ids@[k + 1] == q.1;
            assert((ids@[k], ids@[k + 1]) == q);
        }
    }
    Some((best, best_count))
}

/// A pair sitting at a position inside a prefix occurs in the whole sequence.
proof fn lemma_pair_count_prefix(ids: Seq<u16>, p: (u16, u16), i: int)
    requires
        2 <= i <= ids.len(),
        pair_count(ids.take(i), p) > 0,
    ensures
        pair_count(ids, p) >= pair_count(ids.take(i), p),
    decreases ids.len() - i,
{
    if i < ids.len() {
        assert(ids.take(i + 1).drop_last() =~= ids.take(i));
        lemma_pair_count_prefix(ids, p, i + 1);
    } else {
        assert(ids.take(i) =~= ids);
    }
}

/// A byte-level BPE tokenizer: 256 byte entries followed by one entry per
/// merge rule.
#[derive(Clone, Debug, PartialEq, Eq)]
pub struct Bpe {
    vocab: Vec<Vec<u8>>,
    merges: Vec<(u16, u16)>,
}

impl Bpe {
    /// The vocabulary entries, in id order.
    pub closed spec fn vocab_model(&self) -> Seq<Seq<u8>> {
        vocab_view(self.vocab@)
    }

    /// The merge rules, in the order they were learned.
    pub closed spec fn rules(&self) -> Seq<(u16, u16)> {
        self.merges@
    }

    /// The vocabulary is the one the rules define, and the rules are valid.
    pub closed spec fn well_formed(&self) -> bool {
        &&& rules_valid(self.merges@)
        &&& vocab_view(self.vocab@) == vocab_for(self.merges@)
    }

    /// Learns up to `merges` rules from `text`, each time merging the most
    /// frequent adjacent pair (ties to the smallest pair) while some pair
    /// occurs at least twice.
    pub fn train(text: &[u8], merges: usize) -> (r: Result<Bpe, BpeError>)
        ensures
            merges > MAX_MERGES ==> r == Err::<Bpe, BpeError>(BpeError::TooManyMerges),
            merges <= MAX_MERGES ==> (r matches Ok(b) && trained(text@, merges as nat, b.rules())
                && b.well_formed() && b.vocab_model() == vocab_for(b.rules()) && rules_valid(
                b.rules(),
            )),
    {
        if merges > MAX_MERGES {
            return Err(BpeError::TooManyMerges);
        }
        let mut vocab: Vec<Vec<u8>> = Vec::new();
        let mut b: usize = 0;
        while b < 256
            invariant
                b <= 256,
                vocab_view(vocab@) =~= base_vocab().take(b as int),
            decreases 256 - b,
        {
            let mut entry: Vec<u8> = Vec::new();
            entry.push(b as u8);
            assert(entry@ =~= base_vocab()[b as int]);
            let ghost before = vocab@;
            vocab.push(entry);
            assert(vocab@ == before.push(entry));
            assert(vocab_view(vocab@) =~= vocab_view(before).push(entry@));
            b += 1;
            assert(vocab_view(vocab@) =~= base_vocab().take(b as int));
        }
        assert(base_vocab().take(256) =~= base_vocab());
        let mut ids: Vec<u16> = Vec::new();
        let mut k: usize = 0;
        while k < text.len()
            invariant
                k <= text.len(),
                ids@ =~= byte_ids(text@.take(k as int)),
            decreases text.len() - k,
        {
            ids.push(text[k] as u16);
            k += 1;
            assert(ids@ =~= byte_ids(text@.take(k as int)));
        }
        assert(text@.take(text.len() as int) =~= text@);
        let mut rules: Vec<(u16, u16)> = Vec::new();
        let mut stopped = false;
        assert(apply_merges(byte_ids(text@), rules@) == byte_ids(text@));
        while !stopped && rules.len() < merges
            invariant
                merges <= MAX_MERGES,
                rules.len() <= merges,
                rules_valid(rules@),
                vocab_view(vocab@) == vocab_for(rules@),
                ids@ == encode_spec(rules@, text@),
                forall|i: int|
                    0 <= i < rules@.len() ==> chooses(
                        encode_spec(rules@.take(i), text@),
                        #[trigger] rules@[i],
                    ),
                stopped ==> no_repeated_pair(encode_spec(rules@, text@)),
            decreases merges - rules.len(), if stopped { 0int } else { 1int },
        {
            match most_frequent_pair(&ids) {
                None => {
                    stopped = true;
                    assert forall|q: (u16, u16)| #[trigger] pair_count(ids@, q) < 2 by {}
                },
                Some((pair, count)) => {
                    if count < 2 {
                        stopped = true;
                    } else {
                        let n = rules.len();
                        proof {
                            lemma_apply_merges(text@, rules@);
                            lemma_vocab_for(rules@);
                            lemma_pair_count_position(ids@, pair);
                        }
                        let left = pair.0 as usize;
                        let right = pair.1 as usize;
                        let mut entry: Vec<u8> = Vec::new();
                        extend_bytes(&mut entry, vocab[left].as_slice());
                        extend_bytes(&mut entry, vocab[right].as_slice());
                        vocab.push(entry);
                        let new_id = (256 + n) as u16;
                        let merged = merge_pair(&ids, pair, new_id);
                        let ghost old_rules = rules@;
                        rules.push(pair);
                        ids = merged;
                        proof {
                            assert(rules@.drop_last() =~= old_rules);
                            assert(vocab_view(vocab@) =~= vocab_for(rules@));
                            assert forall|i: int|
                                0 <= i < rules@.len() implies (#[trigger] rules@[i]).0 < 256 + i
                                && rules@[i].1 < 256 + i by {
                                if i < n {
                                    assert(old_rules[i] == rules@[i]);
                                }
                            }
                            assert forall|i: int|
                                0 <= i < rules@.len() implies chooses(
                                encode_spec(rules@.take(i), text@),
                                #[trigger] rules@[i],
                            ) by {
                                if i < n {
                                    assert(rules@.take(i) =~= old_rules.take(i));
                                    assert(old_rules[i] == rules@[i]);
                                } else {
                                    assert(rules@.take(i) =~= old_rules);
                                }
                            }
                        }
                    }
                },
            }
        }
        Ok(Bpe { vocab, merges: rules })
    }

    /// Encodes `bytes` by applying every merge rule in order.
    pub fn encode(&self, bytes: &[u8]) -> (ids: Vec<u16>)
        requires
            self.well_formed(),
        ensures
            ids@ == encode_spec(self.rules(), bytes@),
            ids_below(ids@, self.vocab_model().len() as int),
            rules_valid(self.rules()),
            self.vocab_model() == vocab_for(self.rules()),
    {
        let mut ids: Vec<u16> = Vec::new();
        let mut k: usize = 0;
        while k < bytes.len()
            invariant
                k <= bytes.len(),
                ids@ =~= byte_ids(bytes@.take(k as int)),
            decreases bytes.len() - k,
        {
            ids.push(bytes[k] as u16);
            k += 1;
            assert(ids@ =~= byte_ids(bytes@.take(k as int)));
        }
        assert(bytes@.take(bytes.len() as int) =~= bytes@);
        let mut i: usize = 0;
        while i < self.merges.len()
            invariant
                i <= self.merges@.len(),
                rules_valid(self.merges@),
                ids@ == apply_merges(byte_ids(bytes@), self.merges@.take(i as int)),
            decreases self.merges.len() - i,
        {
            ids = merge_pair(&ids, self.merges[i], (256 + i) as u16);
            i += 1;
            assert(self.merges@.take(i as int).drop_last() =~= self.merges@.take(i - 1));
        }
        assert(self.merges@.take(i as int) =~= self.merges@);
        proof {
            lemma_apply_merges(bytes@, self.merges@);
            lemma_vocab_for(self.merges@);
        }
        ids
    }

    /// Decodes `ids`, refusing unknown ids and output beyond
    /// `MAX_DECODE_BYTES`.
    pub fn decode(&self, ids: &[u16]) -> (r: Result<Vec<u8>, BpeError>)
        ensures
            match r {
                Ok(out) => decode_spec(self.vocab_model(), ids@) == Ok::<Seq<u8>, BpeError>(out@),
                Err(e) => decode_spec(self.vocab_model(), ids@) == Err::<Seq<u8>, BpeError>(e),
            },
    {
        let mut out: Vec<u8> = Vec::new();
        let mut k: usize = 0;
        while k < ids.len()
            invariant
                k <= ids.len(),
                decode_spec(self.vocab_model(), ids@.take(k as int)) == Ok::<Seq<u8>, BpeError>(
                    out@,
                ),
                out@.len() <= MAX_DECODE_BYTES,
            decreases ids.len() - k,
        {
            let ghost prefix = ids@.take(k + 1);
            assert(prefix.drop_last() =~= ids@.take(k as int));
            let id = ids[k] as usize;
            if id >= self.vocab.len() {
                proof {
                    lemma_decode_error_extends(self.vocab_model(), ids@, k + 1);
                }
                return Err(BpeError::UnknownToken);
            }
            let token = &self.vocab[id];
            if token.len() > MAX_DECODE_BYTES - out.len() {
                proof {
                    lemma_decode_error_extends(self.vocab_model(), ids@, k + 1);
                }
                return Err(BpeError::OutputTooLong);
            }
            extend_bytes(&mut out, token.as_slice());
            k += 1;
        }
        assert(ids@.take(ids.len() as int) =~= ids@);
        Ok(out)
    }

    /// Reads a merge-rule text: the header line, then one line per rule
    /// holding two decimal ids, each naming an entry defined before it.
    pub fn parse(text: &str) -> (r: Result<Bpe, BpeError>)
        ensures
            match r {
                Ok(b) => parse_spec(text@) == Ok::<Seq<(u16, u16)>, BpeError>(b.rules())
                    && b.well_formed(),
                Err(e) => parse_spec(text@) == Err::<Seq<(u16, u16)>, BpeError>(e),
            },
    {
        let chars = chars_of(text);
        let ls = split_lines(chars.as_slice());
        let ghost lsv = nested_view(ls@);
        if ls.len() == 0 || !is_header(ls[0].as_slice()) {
            return Err(BpeError::BadHeader);
        }
        let mut vocab: Vec<Vec<u8>> = Vec::new();
        let mut b: usize = 0;
        while b < 256
            invariant
                b <= 256,
                vocab_view(vocab@) =~= base_vocab().take(b as int),
            decreases 256 - b,
        {
            let mut entry: Vec<u8> = Vec::new();
            entry.push(b as u8);
            assert(entry@ =~= base_vocab()[b as int]);
            let ghost before = vocab@;
            vocab.push(entry);
            assert(vocab@ == before.push(entry));
            assert(vocab_view(vocab@) =~= vocab_view(before).push(entry@));
            b += 1;
            assert(vocab_view(vocab@) =~= base_vocab().take(b as int));
        }
        assert(base_vocab().take(256) =~= base_vocab());
        let mut rules: Vec<(u16, u16)> = Vec::new();
        let mut total: usize = 256;
        let mut k: usize = 1;
        assert(lsv.skip(1).take(0) =~= Seq::<Seq<char>>::empty());
        assert forall|i: int| 0 <= i < vocab@.len() implies (#[trigger] vocab@[i])@.len()
            <= MAX_TOKEN_BYTES by {
            assert(vocab_view(vocab@)[i] == vocab@[i]@);
        }
        while k < ls.len()
            invariant
                1 <= k <= ls.len(),
                lsv == nested_view(ls@),
                lsv == lines(text@),
                lsv[0] == header(),
                rules_from_lines(lsv.skip(1).take(k - 1)) == Ok::<
                    (Seq<(u16, u16)>, nat),
                    BpeError,
                >((rules@, total as nat)),
                rules_valid(rules@),
                rules@.len() + 256 <= 65536,
                vocab_view(vocab@) == vocab_for(rules@),
                forall|i: int| 0 <= i < vocab@.len() ==> (#[trigger] vocab@[i])@.len() <= MAX_TOKEN_BYTES,
                total <= MAX_TOTAL_VOCAB_BYTES,
            decreases ls.len() - k,
        {
            let ghost prefix = lsv.skip(1).take(k as int);
            assert(prefix.drop_last() =~= lsv.skip(1).take(k - 1));
            assert(prefix.last() == ls@[k as int]@);
            proof {
                lemma_vocab_for(rules@);
            }
            let n = rules.len() + 256;
            if n > 65535 {
                proof {
                    lemma_rules_error_extends(lsv.skip(1), k as int);
                }
                return Err(BpeError::TooManyRules);
            }
            let w = split_words(ls[k].as_slice());
            if w.len() == 0 {
                proof {
                    lemma_rules_error_extends(lsv.skip(1), k as int);
                }
                return Err(BpeError::MissingLeft);
            }
            let a = match parse_unsigned_checked(w[0].as_slice(), 65535) {
                Err(kind) => {
                    proof {
                        lemma_rules_error_extends(lsv.skip(1), k as int);
                    }
                    return Err(BpeError::BadNumber(kind));
                },
                Ok(v) => v as u16,
            };
            if w.len() < 2 {
                proof {
                    lemma_rules_error_extends(lsv.skip(1), k as int);
                }
                return Err(BpeError::MissingRight);
            }
            let bb = match parse_unsigned_checked(w[1].as_slice(), 65535) {
                Err(kind) => {
                    proof {
                        lemma_rules_error_extends(lsv.skip(1), k as int);
                    }
                    return Err(BpeError::BadNumber(kind));
                },
                Ok(v) => v as u16,
            };
            if w.len() > 2 || a as usize >= n || bb as usize >= n {
                proof {
                    lemma_rules_error_extends(lsv.skip(1), k as int);
                }
                return Err(BpeError::InvalidRule);
            }
            let left_len = vocab[a as usize].len();
            let right_len = vocab[bb as usize].len();
            let new_len = left_len + right_len;
            if new_len > MAX_TOKEN_BYTES {
                proof {
                    lemma_rules_error_extends(lsv.skip(1), k as int);
                }
                return Err(BpeError::TokenTooLong);
            }
            if new_len > MAX_TOTAL_VOCAB_BYTES - total {
                proof {
                    lemma_rules_error_extends(lsv.skip(1), k as int);
                }
                return Err(BpeError::VocabularyTooLarge);
            }
            total = total + new_len;
            let mut entry: Vec<u8> = Vec::new();
            extend_bytes(&mut entry, vocab[a as usize].as_slice());
            extend_bytes(&mut entry, vocab[bb as usize].as_slice());
            vocab.push(entry);
            let ghost old_rules = rules@;
            rules.push((a, bb));
            proof {
                assert(rules@.drop_last() =~= old_rules);
                assert(vocab_view(vocab@) =~= vocab_for(rules@));
                assert forall|i: int|
                    0 <= i < rules@.len() implies (#[trigger] rules@[i]).0 < 256 + i && rules@[i].1
                    < 256 + i by {
                    if i < old_rules.len() {
                        assert(old_rules[i] == rules@[i]);
                    }
                }
            }
            k += 1;
        }
        assert(lsv.skip(1).take(ls.len() - 1) =~= lsv.skip(1));
        Ok(Bpe { vocab, merges: rules })
    }

    /// The merge-rule text of this tokenizer: the header line, then each
    /// rule's two ids in decimal.
    pub fn serialize(&self) -> (s: String)
        ensures
            s@ == serialized(self.rules()),
    {
        let mut out: Vec<char> = Vec::new();
        out.push('B');
        out.push('Y');
        out.push('T');
        out.push('E');
        out.push('_');
        out.push('B');
        out.push('P');
        out.push('E');
        out.push('_');
        out.push('V');
        out.push('1');
        out.push('\n');
        assert(out@ =~= header() + seq!['\n'] + rules_text(self.merges@.take(0)));
        let mut i: usize = 0;
        while i < self.merges.len()
            invariant
                i <= self.merges@.len(),
                out@ == header() + seq!['\n'] + rules_text(self.merges@.take(i as int)),
            decreases self.merges.len() - i,
        {
            let (a, b) = self.merges[i];
            let ghost before = out@;
            push_decimal(&mut out, a as u64);
            out.push(' ');
            push_decimal(&mut out, b as u64);
            out.push('\n');
            assert(self.merges@.take(i + 1).drop_last() =~= self.merges@.take(i as int));
            assert(out@ =~= before + rule_text(self.merges@[i as int]));
            i += 1;
        }
        assert(self.merges@.take(self.merges.len() as int) =~= self.merges@);
        string_from_chars(out.as_slice())
    }

    /// The vocabulary entries, in id order.
    pub fn vocab(&self) -> (v: &Vec<Vec<u8>>)
        ensures
            vocab_view(v@) == self.vocab_model(),
    {
        &self.vocab
    }

    /// The merge rules, in the order they were learned.
    pub fn merges(&self) -> (m: &Vec<(u16, u16)>)
        ensures
            m@ == self.rules(),
    {
        &self.merges
    }
}

/// Once reading a prefix of the lines fails, reading all of them fails the same way.
pub proof fn lemma_rules_error_extends(ls: Seq<Seq<char>>, k: int)
    requires
        0 <= k <= ls.len(),
        rules_from_lines(ls.take(k)) is Err,
    ensures
        rules_from_lines(ls) == rules_from_lines(ls.take(k)),
    decreases ls.len() - k,
{
    if k < ls.len() {
        assert(ls.take(k + 1).drop_last() =~= ls.take(k));
        lemma_rules_error_extends(ls, k + 1);
    } else {
        assert(ls.take(k) =~= ls);
    }
}

/// Whether `line` is the header line of a merge-rule text.
fn is_header(line: &[char]) -> (r: bool)
    ensures
        r == (line@ == header()),
{
    if line.len() != 11 {
        return false;
    }
    let r = line[0] == 'B' && line[1] == 'Y' && line[2] == 'T' && line[3] == 'E' && line[4] == '_'
        && line[5] == 'B' && line[6] == 'P' && line[7] == 'E' && line[8] == '_' && line[9] == 'V'
        && line[10] == '1';
    if r {
        assert(line@ =~= header());
    } else {
        assert(line@ != header()) by {
            if line@ == header() {
                assert(line@[0] == 'B');
            }
        }
    }
    r
}

/// Once decoding a prefix fails, decoding the whole sequence fails the same way.
pub proof fn lemma_decode_error_extends(vocab: Seq<Seq<u8>>, ids: Seq<u16>, k: int)
    requires
        0 <= k <= ids.len(),
        decode_spec(vocab, ids.take(k)) is Err,
    ensures
        decode_spec(vocab, ids) == decode_spec(vocab, ids.take(k)),
    decreases ids.len() - k,
{
    if k < ids.len() {
        assert(ids.take(k + 1).drop_last() =~= ids.take(k));
        lemma_decode_error_extends(vocab, ids, k + 1);
    } else {
        assert(ids.take(k) =~= ids);
    }
}

/// Decoding what encoding produced gives the input back, for every input
/// within the decoding limit.
pub proof fn lemma_decode_encode(rules: Seq<(u16, u16)>, bytes: Seq<u8>)
    requires
        rules_valid(rules),
        bytes.len() <= MAX_DECODE_BYTES,
    ensures
        decode_spec(vocab_for(rules), encode_spec(rules, bytes)) == Ok::<Seq<u8>, BpeError>(bytes),
{
    lemma_apply_merges(bytes, rules);
    lemma_vocab_for(rules);
    lemma_decode_flatten(vocab_for(rules), encode_spec(rules, bytes));
}

/// The vocabulary size in bytes that reading the merge-rule text of
/// `rules` counts: 256 byte entries plus each merged entry.
pub open spec fn vocab_bytes(rules: Seq<(u16, u16)>) -> nat
    decreases rules.len(),
{
    if rules.len() == 0 {
        256
    } else {
        let v = vocab_for(rules.drop_last());
        vocab_bytes(rules.drop_last()) + v[rules.last().0 as int].len() + v[rules.last().1 as int].len()
    }
}

/// Every merged entry of `rules`, and the whole vocabulary, stay within the
/// limits that reading a merge-rule text enforces.
pub open spec fn within_text_limits(rules: Seq<(u16, u16)>) -> bool
    decreases rules.len(),
{
    if rules.len() == 0 {
        true
    } else {
        let v = vocab_for(rules.drop_last());
        &&& within_text_limits(rules.drop_last())
        &&& v[rules.last().0 as int].len() + v[rules.last().1 as int].len() <= MAX_TOKEN_BYTES
        &&& vocab_bytes(rules) <= MAX_TOTAL_VOCAB_BYTES
    }
}

/// The text lines of the rules, without their line feeds.
pub open spec fn rule_lines(rules: Seq<(u16, u16)>) -> Seq<Seq<char>> {
    rules.map_values(|r: (u16, u16)| decimal(r.0 as nat) + seq![' '] + decimal(r.1 as nat))
}

/// A rule's line holds digits and one space: no line feed, and it does not
/// end in a carriage return.
proof fn lemma_rule_line_chars(r: (u16, u16))
    ensures
        ({
            let line = decimal(r.0 as nat) + seq![' '] + decimal(r.1 as nat);
            &&& forall|i: int| 0 <= i < line.len() ==> #[trigger] line[i] != '\n'
            &&& strip_cr(line) == line
        }),
{
    lemma_decimal(r.0 as nat);
    lemma_decimal(r.1 as nat);
    let da = decimal(r.0 as nat);
    let db = decimal(r.1 as nat);
    let line = da + seq![' '] + db;
    assert forall|i: int| 0 <= i < line.len() implies #[trigger] line[i] != '\n' by {
        if i < da.len() {
            assert(is_digit(da[i]));
        } else if i > da.len() {
            assert(line[i] == db[i - da.len() - 1]);
            assert(is_digit(db[i - da.len() - 1]));
        }
    }
    assert(line.last() == db[db.len() - 1]);
    assert(is_digit(db[db.len() - 1]));
}

/// Scanning the serialized text for lines finds the header line, then one
/// line per rule, with nothing after the last line feed.
proof fn lemma_line_state_serialized(rules: Seq<(u16, u16)>)
    ensures
        line_state(serialized(rules)) == (seq![header()] + rule_lines(rules), Seq::<char>::empty()),
    decreases rules.len(),
{
    if rules.len() == 0 {
        let h = header();
        assert(serialized(rules) =~= h.push('\n'));
        assert(serialized(rules).drop_last() =~= h);
        lemma_line_state_append(Seq::empty(), h);
        assert(Seq::<char>::empty() + h =~= h);
        assert(Seq::<char>::empty() + h =~= h);
        assert(strip_cr(h) == h);
        assert(seq![h] + rule_lines(rules) =~= Seq::<Seq<char>>::empty().push(h));
    } else {
        let prev = rules.drop_last();
        lemma_line_state_serialized(prev);
        let r = rules.last();
        let line = decimal(r.0 as nat) + seq![' '] + decimal(r.1 as nat);
        lemma_rule_line_chars(r);
        let before = serialized(prev);
        assert(serialized(rules) =~= (before + line).push('\n'));
        assert(serialized(rules).drop_last() =~= before + line);
        lemma_line_state_append(before, line);
        assert(Seq::<char>::empty() + line =~= line);
        assert(rule_lines(rules) =~= rule_lines(prev).push(line));
        assert(seq![header()] + rule_lines(rules) =~= (seq![header()] + rule_lines(prev)).push(
            line,
        ));
    }
}

/// Reading the rule lines of loadable rules gives the rules back, with
/// their vocabulary size.
proof fn lemma_rules_from_rule_lines(rules: Seq<(u16, u16)>)
    requires
        rules_valid(rules),
        within_text_limits(rules),
    ensures
        rules_from_lines(rule_lines(rules)) == Ok::<(Seq<(u16, u16)>, nat), BpeError>(
            (rules, vocab_bytes(rules)),
        ),
    decreases rules.len(),
{
    if rules.len() == 0 {
        assert(rule_lines(rules) =~= Seq::<Seq<char>>::empty());
        assert(rules =~= Seq::<(u16, u16)>::empty());
    } else {
        let prev = rules.drop_last();
        assert(rules_valid(prev)) by {
            assert forall|i: int| 0 <= i < prev.len() implies (#[trigger] prev[i]).0 < 256 + i
                && prev[i].1 < 256 + i by {
                assert(prev[i] == rules[i]);
            }
        }
        lemma_rules_from_rule_lines(prev);
        assert(rule_lines(rules).drop_last() =~= rule_lines(prev));
        let r = rules.last();
        let last = rules.len() - 1;
        assert(r == rules[last]);
        assert(r.0 < 256 + last && r.1 < 256 + last);
        lemma_words_of_pair(r.0 as nat, r.1 as nat);
        lemma_parse_decimal(r.0 as nat);
        lemma_parse_decimal(r.1 as nat);
        lemma_parse_unsigned_std(decimal(r.0 as nat), 65535);
        lemma_parse_unsigned_std(decimal(r.1 as nat), 65535);
        assert(rule_lines(rules).last() == decimal(r.0 as nat) + seq![' '] + decimal(r.1 as nat));
        assert(prev.push(r) =~= rules);
    }
}

/// Reading the serialized text of loadable rules gives the same rules back.
pub proof fn lemma_parse_serialized(rules: Seq<(u16, u16)>)
    requires
        rules_valid(rules),
        within_text_limits(rules),
    ensures
        parse_spec(serialized(rules)) == Ok::<Seq<(u16, u16)>, BpeError>(rules),
{
    lemma_line_state_serialized(rules);
    lemma_rules_from_rule_lines(rules);
    let ls = lines(serialized(rules));
    assert(ls == seq![header()] + rule_lines(rules));
    assert(ls.skip(1) =~= rule_lines(rules));
}

} // verus!
