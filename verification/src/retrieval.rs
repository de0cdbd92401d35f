//! Lexical retrieval: splitting text into lower-cased alphanumeric words,
//! dropping stop words, and counting the query words a document contains.
use vstd::prelude::*;
use crate::text::{
    ascii_lower, chars_of, eq_str, nested_view, split_words, string_from_chars, to_ascii_lower,
};

verus! {

/// Whether `char::is_alphanumeric` holds of `c`: the Unicode `Alphabetic`
/// or `Numeric` property.
pub uninterp spec fn alphanumeric(c: char) -> bool;

/// `char::is_alphanumeric`. Its contract names the result and claims
/// nothing else: which characters are alphabetic or numeric is the Unicode
/// tables' business.
#[verifier::external_body]
fn is_alphanumeric(c: char) -> (r: bool)
    ensures
        r == alphanumeric(c),
{
    c.is_alphanumeric()
}

/// Scanning `s` for runs of alphanumeric characters, lower-casing ASCII
/// letters: the runs finished so far, and the run in progress.
pub open spec fn run_state(s: Seq<char>) -> (Seq<Seq<char>>, Seq<char>)
    decreases s.len(),
{
    if s.len() == 0 {
        (Seq::empty(), Seq::empty())
    } else {
        let (done, cur) = run_state(s.drop_last());
        if alphanumeric(s.last()) {
            (done, cur.push(ascii_lower(s.last())))
        } else if cur.len() > 0 {
            (done.push(cur), Seq::empty())
        } else {
            (done, Seq::empty())
        }
    }
}

/// The maximal runs of alphanumeric characters of `s`, in order, with
/// ASCII letters in lower case.
pub open spec fn word_list(s: Seq<char>) -> Seq<Seq<char>> {
    let (done, cur) = run_state(s);
    if cur.len() > 0 {
        done.push(cur)
    } else {
        done
    }
}

/// The contents of a sequence of strings.
pub open spec fn strings_view(v: Seq<String>) -> Seq<Seq<char>> {
    v.map_values(|s: String| s@)
}

/// The lower-cased alphanumeric words of `s`.
pub fn words(s: &str) -> (out: Vec<String>)
    ensures
        strings_view(out@) == word_list(s@),
{
    let cs = chars_of(s);
    let mut done: Vec<String> = Vec::new();
    let mut cur: Vec<char> = Vec::new();
    let mut i: usize = 0;
    while i < cs.len()
        invariant
            i <= cs@.len(),
            cs@ == s@,
            (strings_view(done@), cur@) == run_state(cs@.take(i as int)),
        decreases cs.len() - i,
    {
        assert(cs@.take(i + 1).drop_last() =~= cs@.take(i as int));
        let c = cs[i];
        if is_alphanumeric(c) {
            cur.push(to_ascii_lower(c));
        } else if cur.len() > 0 {
            let ghost before = done@;
            let word = string_from_chars(&cur);
            done.push(word);
            assert(strings_view(done@) =~= strings_view(before).push(cur@));
            cur = Vec::new();
        }
        i += 1;
        assert(cur@ =~= run_state(cs@.take(i as int)).1);
    }
    assert(cs@.take(cs.len() as int) =~= cs@);
    if cur.len() > 0 {
        let ghost before = done@;
        let word = string_from_chars(&cur);
        done.push(word);
        assert(strings_view(done@) =~= strings_view(before).push(cur@));
    }
    done
}

/// Words too common to count as evidence.
pub open spec fn stop_word(w: Seq<char>) -> bool {
    w == "a"@ || w == "and"@ || w == "is"@ || w == "of"@ || w == "the"@ || w == "what"@ || w
        == "which"@ || w == "who"@
}

/// `ws` without its stop words, in order.
pub open spec fn without_stop_words(ws: Seq<Seq<char>>) -> Seq<Seq<char>>
    decreases ws.len(),
{
    if ws.len() == 0 {
        Seq::empty()
    } else {
        let rest = without_stop_words(ws.drop_last());
        if stop_word(ws.last()) {
            rest
        } else {
            rest.push(ws.last())
        }
    }
}

/// Whether `w` is a stop word.
fn is_stop_word(w: &[char]) -> (r: bool)
    ensures
        r == stop_word(w@),
{
    eq_str(w, "a") || eq_str(w, "and") || eq_str(w, "is") || eq_str(w, "of") || eq_str(w, "the")
        || eq_str(w, "what") || eq_str(w, "which") || eq_str(w, "who")
}

/// The words of `s` that carry content: all but the stop words.
pub fn content_words(s: &str) -> (out: Vec<String>)
    ensures
        strings_view(out@) == without_stop_words(word_list(s@)),
{
    let all = words(s);
    let ghost ws = strings_view(all@);
    let mut out: Vec<String> = Vec::new();
    let mut i: usize = 0;
    while i < all.len()
        invariant
            i <= all@.len(),
            ws == strings_view(all@),
            strings_view(out@) == without_stop_words(ws.take(i as int)),
        decreases all.len() - i,
    {
        assert(ws.take(i + 1).drop_last() =~= ws.take(i as int));
        let w = &all[i];
        let cs = chars_of(w.as_str());
        assert(cs@ == ws[i as int]);
        if !is_stop_word(&cs) {
            let ghost before = out@;
            out.push(string_from_chars(&cs));
            assert(strings_view(out@) =~= strings_view(before).push(ws[i as int]));
        }
        i += 1;
    }
    assert(ws.take(all@.len() as int) =~= ws);
    out
}

/// How many entries of `q` occur somewhere in `d`, counting repeats in `q`.
pub open spec fn count_present(q: Seq<Seq<char>>, d: Seq<Seq<char>>) -> nat
    decreases q.len(),
{
    if q.len() == 0 {
        0
    } else {
        count_present(q.drop_last(), d) + if d.contains(q.last()) {
            1nat
        } else {
            0nat
        }
    }
}

/// Whether the two character sequences are equal.
fn same_chars(a: &[char], b: &[char]) -> (r: bool)
    ensures
        r == (a@ == b@),
{
    if a.len() != b.len() {
        return false;
    }
    let mut k: usize = 0;
    while k < a.len()
        invariant
            k <= a@.len(),
            a@.len() == b@.len(),
            forall|t: int| 0 <= t < k ==> a@[t] == b@[t],
        decreases a.len() - k,
    {
        if a[k] != b[k] {
            return false;
        }
        k += 1;
    }
    assert(a@ =~= b@);
    true
}

/// Whether `w` is one of `ws`.
fn contains_word(ws: &Vec<Vec<char>>, w: &[char]) -> (r: bool)
    ensures
        r == nested_view(ws@).contains(w@),
{
    let mut k: usize = 0;
    while k < ws.len()
        invariant
            k <= ws@.len(),
            forall|t: int| 0 <= t < k ==> ws@[t]@ != w@,
        decreases ws.len() - k,
    {
        if same_chars(&ws[k], w) {
            assert(nested_view(ws@)[k as int] == w@);
            return true;
        }
        k += 1;
    }
    proof {
        if nested_view(ws@).contains(w@) {
            let t = choose|t: int| 0 <= t < nested_view(ws@).len() && nested_view(ws@)[t] == w@;
            assert(ws@[t]@ == w@);
        }
    }
    false
}

/// How many of the given query words occur among the document words.
fn count_in(query: &Vec<Vec<char>>, doc: &Vec<Vec<char>>) -> (n: usize)
    ensures
        n == count_present(nested_view(query@), nested_view(doc@)),
{
    let ghost q = nested_view(query@);
    let mut n: usize = 0;
    let mut i: usize = 0;
    while i < query.len()
        invariant
            i <= query@.len(),
            q == nested_view(query@),
            n == count_present(q.take(i as int), nested_view(doc@)),
            n <= i,
        decreases query.len() - i,
    {
        assert(q.take(i + 1).drop_last() =~= q.take(i as int));
        if contains_word(doc, &query[i]) {
            n += 1;
        }
        i += 1;
    }
    assert(q.take(query@.len() as int) =~= q);
    n
}

/// The lower-cased alphanumeric words of `s`, as characters.
fn word_chars(s: &str) -> (out: Vec<Vec<char>>)
    ensures
        nested_view(out@) == word_list(s@),
{
    let ws = words(s);
    let mut out: Vec<Vec<char>> = Vec::new();
    let mut i: usize = 0;
    while i < ws.len()
        invariant
            i <= ws@.len(),
            nested_view(out@) == strings_view(ws@).take(i as int),
            strings_view(ws@) == word_list(s@),
        decreases ws.len() - i,
    {
        let ghost before = out@;
        let cs = chars_of(ws[i].as_str());
        assert(cs@ == strings_view(ws@)[i as int]);
        out.push(cs);
        assert(nested_view(out@) =~= nested_view(before).push(cs@));
        assert(strings_view(ws@).take(i + 1) =~= strings_view(ws@).take(i as int).push(cs@));
        i += 1;
    }
    assert(strings_view(ws@).take(ws@.len() as int) =~= strings_view(ws@));
    out
}

/// How many words of `query` occur in `doc`, both split into lower-cased
/// alphanumeric words.
pub fn overlap(query: &str, doc: &str) -> (n: usize)
    ensures
        n == count_present(word_list(query@), word_list(doc@)),
{
    let d = word_chars(doc);
    let q = word_chars(query);
    count_in(&q, &d)
}

/// How many white-space separated words of `query` occur among those of
/// `document`.
pub fn overlap_score(query: &str, document: &str) -> (n: usize)
    ensures
        n == count_present(crate::text::words(query@), crate::text::words(document@)),
{
    let q = split_words(&chars_of(query));
    let d = split_words(&chars_of(document));
    count_in(&q, &d)
}


/// The content words of a text are exactly its words other than the eight
/// stop words "a", "and", "is", "of", "the", "what", "which" and "who":
/// every word kept is a word of the text and none of those eight, and every
/// word of the text that is none of them is kept.
pub proof fn lemma_content_words_drop_exactly_the_stop_words(s: Seq<char>, w: Seq<char>)
    ensures
        without_stop_words(word_list(s)).contains(w) <==> (word_list(s).contains(w) && w != "a"@ && w
            != "and"@ && w != "is"@ && w != "of"@ && w != "the"@ && w != "what"@ && w != "which"@
            && w != "who"@),
{
    lemma_without_stop_words_contains(word_list(s), w);
}

/// What `without_stop_words` keeps, entry by entry.
proof fn lemma_without_stop_words_contains(ws: Seq<Seq<char>>, w: Seq<char>)
    ensures
        without_stop_words(ws).contains(w) <==> (ws.contains(w) && w != "a"@ && w != "and"@ && w
            != "is"@ && w != "of"@ && w != "the"@ && w != "what"@ && w != "which"@ && w != "who"@),
    decreases ws.len(),
{
    if ws.len() > 0 {
        let init = ws.drop_last();
        lemma_without_stop_words_contains(init, w);
        assert(ws =~= init.push(ws.last()));
        if ws.contains(w) && w != ws.last() {
            let k = choose|k: int| 0 <= k < ws.len() && ws[k] == w;
            assert(init[k] == w);
        }
        if init.contains(w) {
            let k = choose|k: int| 0 <= k < init.len() && init[k] == w;
            assert(ws[k] == w);
        }
        let rest = without_stop_words(init);
        if !stop_word(ws.last()) {
            assert(rest.push(ws.last())[rest.len() as int] == ws.last());
            if rest.contains(w) {
                let k = choose|k: int| 0 <= k < rest.len() && rest[k] == w;
                assert(rest.push(ws.last())[k] == w);
            }
            if rest.push(ws.last()).contains(w) && w != ws.last() {
                let k = choose|k: int| 0 <= k < rest.len() + 1 && rest.push(ws.last())[k] == w;
                assert(rest[k] == w);
            }
        }
        assert(ws.contains(ws.last())) by {
            assert(ws[ws.len() - 1] == ws.last());
        }
    }
}


/// Dropping stop words works word by word and keeps the order: on two
/// word lists one after the other it gives the two results one after the
/// other.
pub proof fn lemma_without_stop_words_concat(a: Seq<Seq<char>>, b: Seq<Seq<char>>)
    ensures
        without_stop_words(a + b) == without_stop_words(a) + without_stop_words(b),
    decreases b.len(),
{
    if b.len() == 0 {
        assert(a + b =~= a);
        assert(without_stop_words(a) + without_stop_words(b) =~= without_stop_words(a));
    } else {
        lemma_without_stop_words_concat(a, b.drop_last());
        assert((a + b).drop_last() =~= a + b.drop_last());
        assert((a + b).last() == b.last());
        let x = without_stop_words(a);
        let y = without_stop_words(b.drop_last());
        assert((x + y).push(b.last()) =~= x + y.push(b.last()));
    }
}

/// A single word is dropped exactly when it is one of the eight stop words
/// "a", "and", "is", "of", "the", "what", "which" and "who", and kept
/// otherwise.
pub proof fn lemma_without_stop_words_single(w: Seq<char>)
    ensures
        without_stop_words(seq![w]) == (if w == "a"@ || w == "and"@ || w == "is"@ || w == "of"@ || w
            == "the"@ || w == "what"@ || w == "which"@ || w == "who"@ {
            Seq::<Seq<char>>::empty()
        } else {
            seq![w]
        }),
{
    let one = seq![w];
    assert(one.len() == 1 && one.last() == w);
    assert(one.drop_last() =~= Seq::<Seq<char>>::empty());
    assert(without_stop_words(one.drop_last()) == Seq::<Seq<char>>::empty());
    assert(Seq::<Seq<char>>::empty().push(w) =~= one);
}

} // verus!
