//! Caption features of the toy image-text encoder: how often a caption
//! names each of its three stroke directions.
use vstd::prelude::*;

use crate::text::{chars_of, eq_str, nested_view};

verus! {

/// ASCII white space (`char::is_ascii_whitespace`): space, tab, line feed,
/// form feed and carriage return.
pub open spec fn ascii_white(c: char) -> bool {
    c == ' ' || c == '\t' || c == '\n' || c == '\x0c' || c == '\r'
}

/// An ASCII letter.
pub open spec fn ascii_letter(c: char) -> bool {
    ('a' <= c && c <= 'z') || ('A' <= c && c <= 'Z')
}

/// Scanning `s` for runs of characters separated by ASCII white space: the
/// runs finished so far, and the run in progress.
pub open spec fn ascii_word_state(s: Seq<char>) -> (Seq<Seq<char>>, Seq<char>)
    decreases s.len(),
{
    if s.len() == 0 {
        (Seq::empty(), Seq::empty())
    } else {
        let (done, cur) = ascii_word_state(s.drop_last());
        if ascii_white(s.last()) {
            if cur.len() > 0 {
                (done.push(cur), Seq::empty())
            } else {
                (done, Seq::empty())
            }
        } else {
            (done, cur.push(s.last()))
        }
    }
}

/// The maximal runs of characters of `s` that are not ASCII white space
/// (`str::split_ascii_whitespace`).
pub open spec fn ascii_words(s: Seq<char>) -> Seq<Seq<char>> {
    let (done, cur) = ascii_word_state(s);
    if cur.len() > 0 {
        done.push(cur)
    } else {
        done
    }
}

/// `s` without the characters before its first ASCII letter.
pub open spec fn skip_to_letter(s: Seq<char>) -> Seq<char>
    decreases s.len(),
{
    if s.len() > 0 && !ascii_letter(s[0]) {
        skip_to_letter(s.skip(1))
    } else {
        s
    }
}

/// `s` without the characters after its last ASCII letter.
pub open spec fn cut_after_letter(s: Seq<char>) -> Seq<char>
    decreases s.len(),
{
    if s.len() > 0 && !ascii_letter(s.last()) {
        cut_after_letter(s.drop_last())
    } else {
        s
    }
}

/// A word without the punctuation around it.
pub open spec fn letters_core(w: Seq<char>) -> Seq<char> {
    cut_after_letter(skip_to_letter(w))
}

/// How many of `ws` are `target` once their punctuation is removed.
pub open spec fn count_word(ws: Seq<Seq<char>>, target: Seq<char>) -> nat
    decreases ws.len(),
{
    if ws.len() == 0 {
        0
    } else {
        count_word(ws.drop_last(), target) + if letters_core(ws.last()) == target {
            1nat
        } else {
            0nat
        }
    }
}

/// The counts a caption gives: how often it says "vertical",
/// "horizontal" and "diagonal".
pub open spec fn caption_counts(s: Seq<char>) -> (nat, nat, nat) {
    (
        count_word(ascii_words(s), "vertical"@),
        count_word(ascii_words(s), "horizontal"@),
        count_word(ascii_words(s), "diagonal"@),
    )
}

/// Every character of `s` is ASCII.
pub open spec fn all_ascii(s: Seq<char>) -> bool {
    forall|i: int| 0 <= i < s.len() ==> (#[trigger] s[i] as u32) < 128
}

/// The ASCII-white-space separated words of `s`.
fn split_ascii_words(s: &[char]) -> (out: Vec<Vec<char>>)
    ensures
        nested_view(out@) == ascii_words(s@),
        out@.len() <= s@.len(),
{
    let mut done: Vec<Vec<char>> = Vec::new();
    let mut cur: Vec<char> = Vec::new();
    let mut i: usize = 0;
    while i < s.len()
        invariant
            i <= s.len(),
            (nested_view(done@), cur@) == ascii_word_state(s@.take(i as int)),
            done@.len() + cur@.len() <= i,
        decreases s.len() - i,
    {
        assert(s@.take(i + 1).drop_last() =~= s@.take(i as int));
        let c = s[i];
        if c == ' ' || c == '\t' || c == '\n' || c == '\x0c' || c == '\r' {
            if cur.len() > 0 {
                let ghost before = done@;
                let finished = cur;
                done.push(finished);
                assert(nested_view(done@) =~= nested_view(before).push(finished@));
                cur = Vec::new();
            }
        } else {
            cur.push(c);
        }
        i += 1;
        assert(cur@ =~= ascii_word_state(s@.take(i as int)).1);
    }
    assert(s@.take(s.len() as int) =~= s@);
    if cur.len() > 0 {
        let ghost before = done@;
        let finished = cur;
        done.push(finished);
        assert(nested_view(done@) =~= nested_view(before).push(finished@));
    }
    done
}

/// Whether `c` is an ASCII letter.
fn is_ascii_letter(c: char) -> (r: bool)
    ensures
        r == ascii_letter(c),
{
    ('a' <= c && c <= 'z') || ('A' <= c && c <= 'Z')
}

/// `w` without the punctuation around it.
fn strip_to_letters(w: &[char]) -> (out: Vec<char>)
    ensures
        out@ == letters_core(w@),
{
    let mut start: usize = 0;
    assert(w@.skip(0) =~= w@);
    while start < w.len() && !is_ascii_letter(w[start])
        invariant
            start <= w@.len(),
            skip_to_letter(w@) == skip_to_letter(w@.skip(start as int)),
        decreases w.len() - start,
    {
        assert(w@.skip(start as int).skip(1) =~= w@.skip(start + 1));
        start += 1;
    }
    let mut end: usize = w.len();
    assert(w@.skip(start as int) =~= w@.subrange(start as int, end as int));
    while end > start && !is_ascii_letter(w[end - 1])
        invariant
            start <= end <= w@.len(),
            letters_core(w@) == cut_after_letter(w@.subrange(start as int, end as int)),
        decreases end,
    {
        assert(w@.subrange(start as int, end as int).drop_last() =~= w@.subrange(start as int, end - 1));
        end -= 1;
    }
    let mut out: Vec<char> = Vec::new();
    let mut k: usize = start;
    while k < end
        invariant
            start <= k <= end <= w@.len(),
            out@ == w@.subrange(start as int, k as int),
        decreases end - k,
    {
        out.push(w[k]);
        k += 1;
        assert(out@ =~= w@.subrange(start as int, k as int));
    }
    out
}

/// How often a caption says "vertical", "horizontal" and "diagonal",
/// each word taken without the punctuation around it. A caption that is
/// empty, is not ASCII, or says none of the three is refused.
pub fn caption_features(caption: &str) -> (r: Result<[usize; 3], &'static str>)
    ensures
        (caption@.len() == 0 || !all_ascii(caption@)) ==> r == Err::<[usize; 3], &'static str>(
            "caption must be nonempty ASCII text",
        ),
        caption@.len() > 0 && all_ascii(caption@) && caption_counts(caption@) == (0nat, 0nat, 0nat)
            ==> r == Err::<[usize; 3], &'static str>(
            "caption contains none of the three vocabulary words",
        ),
        caption@.len() > 0 && all_ascii(caption@) && caption_counts(caption@) != (0nat, 0nat, 0nat)
            ==> (r matches Ok(f) && (f[0] as nat, f[1] as nat, f[2] as nat) == caption_counts(
            caption@,
        )),
{
    let cs = chars_of(caption);
    if cs.len() == 0 {
        return Err("caption must be nonempty ASCII text");
    }
    let mut i: usize = 0;
    while i < cs.len()
        invariant
            i <= cs@.len(),
            cs@ == caption@,
            forall|j: int| 0 <= j < i ==> (#[trigger] cs@[j] as u32) < 128,
        decreases cs.len() - i,
    {
        if cs[i] as u32 >= 128 {
            return Err("caption must be nonempty ASCII text");
        }
        i += 1;
    }
    let words = split_ascii_words(&cs);
    let ghost ws = nested_view(words@);
    let mut vertical: usize = 0;
    let mut horizontal: usize = 0;
    let mut diagonal: usize = 0;
    let mut k: usize = 0;
    while k < words.len()
        invariant
            k <= words@.len(),
            ws == nested_view(words@),
            ws == ascii_words(caption@),
            vertical == count_word(ws.take(k as int), "vertical"@),
            horizontal == count_word(ws.take(k as int), "horizontal"@),
            diagonal == count_word(ws.take(k as int), "diagonal"@),
            vertical <= k,
            horizontal <= k,
            diagonal <= k,
        decreases words.len() - k,
    {
        let core = strip_to_letters(&words[k]);
        assert(ws.take(k + 1).drop_last() =~= ws.take(k as int));
        assert(ws.take(k + 1).last() == words@[k as int]@);
        proof {
            reveal_strlit("vertical");
            reveal_strlit("horizontal");
            reveal_strlit("diagonal");
            assert("vertical"@[0] != "diagonal"@[0]);
            assert("vertical"@.len() != "horizontal"@.len());
            assert("diagonal"@.len() != "horizontal"@.len());
        }
        if eq_str(&core, "vertical") {
            vertical += 1;
        } else if eq_str(&core, "horizontal") {
            horizontal += 1;
        } else if eq_str(&core, "diagonal") {
            diagonal += 1;
        }
        k += 1;
    }
    assert(ws.take(words@.len() as int) =~= ws);
    if vertical == 0 && horizontal == 0 && diagonal == 0 {
        return Err("caption contains none of the three vocabulary words");
    }
    Ok([vertical, horizontal, diagonal])
}

} // verus!
