//! Building a documented corpus: normalising text, splitting a bundle into
//! titled and licensed documents, naming each by the hash of its content,
//! assigning it to a split, and the word shingles that near-duplicate
//! detection compares.
use vstd::prelude::*;
use crate::fnv::{fnv1a, fnv1a_bytes};
use crate::text::{
    chars_of, lines, nested_view, split_lines, split_words, string_from_chars, strip_prefix,
    strip_prefix_spec, trim, trim_chars, words,
};
use crate::lexical::{
    lemma_increasing_unique, lemma_insert_increasing, lemma_text_irreflexive, lemma_text_total,
    lemma_words_irreflexive, lemma_words_step, lemma_words_total, strictly_increasing, text_less,
    words_before,
};
use vstd::utf8::encode_utf8;

verus! {

/// The FNV-1a hash that names a document.
pub fn hash(bytes: &[u8]) -> (h: u64)
    ensures
        h == fnv1a(bytes@),
{
    fnv1a_bytes(bytes)
}

/// The pieces of `ws` with `sep` between each two.
pub open spec fn join(ws: Seq<Seq<char>>, sep: char) -> Seq<char>
    decreases ws.len(),
{
    if ws.len() == 0 {
        Seq::empty()
    } else if ws.len() == 1 {
        ws[0]
    } else {
        join(ws.drop_last(), sep) + seq![sep] + ws.last()
    }
}

/// The pieces of `ws` joined with `sep`.
pub fn join_chars(ws: &Vec<Vec<char>>, sep: char) -> (out: Vec<char>)
    ensures
        out@ == join(nested_view(ws@), sep),
{
    let ghost v = nested_view(ws@);
    let mut out: Vec<char> = Vec::new();
    let mut i: usize = 0;
    while i < ws.len()
        invariant
            i <= ws@.len(),
            v == nested_view(ws@),
            out@ == join(v.take(i as int), sep),
        decreases ws.len() - i,
    {
        assert(v.take(i + 1).drop_last() =~= v.take(i as int));
        if i > 0 {
            out.push(sep);
        }
        let w = &ws[i];
        let mut k: usize = 0;
        let ghost start = out@;
        while k < w.len()
            invariant
                k <= w@.len(),
                out@ == start + w@.take(k as int),
            decreases w.len() - k,
        {
            out.push(w[k]);
            k += 1;
            assert(out@ =~= start + w@.take(k as int));
        }
        assert(w@.take(w@.len() as int) =~= w@);
        i += 1;
        assert(out@ =~= join(v.take(i as int), sep));
    }
    assert(v.take(ws@.len() as int) =~= v);
    out
}

/// `s` with its runs of white space made single spaces and its ends trimmed.
pub open spec fn clean_spec(s: Seq<char>) -> Seq<char> {
    join(words(s), ' ')
}

/// The characters of `s` cleaned.
fn clean_chars(s: &[char]) -> (out: Vec<char>)
    ensures
        out@ == clean_spec(s@),
{
    let ws = split_words(s);
    join_chars(&ws, ' ')
}

/// `s` with its runs of white space made single spaces and its ends trimmed.
pub fn clean(s: &str) -> (out: String)
    ensures
        out@ == clean_spec(s@),
{
    string_from_chars(&clean_chars(&chars_of(s)))
}

/// The split a document goes to, by its id: one in ten to test, one in
/// ten to validation, the rest to training.
pub open spec fn split_spec(id: u64) -> &'static str {
    if id % 10 == 0 {
        "test"
    } else if id % 10 == 1 {
        "validation"
    } else {
        "train"
    }
}

/// The split a document goes to.
pub fn split(id: u64) -> (s: &'static str)
    ensures
        s == split_spec(id),
{
    match id % 10 {
        0 => "test",
        1 => "validation",
        _ => "train",
    }
}

/// A document goes to "test" exactly when its id is 0 mod 10, to
/// "validation" exactly when it is 1 mod 10, and to "train" exactly when
/// it is any other residue; it always goes to one of the three.
pub proof fn lemma_split_by_residue(id: u64)
    ensures
        split_spec(id)@ == "test"@ <==> id % 10 == 0,
        split_spec(id)@ == "validation"@ <==> id % 10 == 1,
        split_spec(id)@ == "train"@ <==> 2 <= id % 10 <= 9,
{
    reveal_strlit("test");
    reveal_strlit("validation");
    reveal_strlit("train");
    assert("test"@ != "validation"@ && "test"@ != "train"@ && "validation"@ != "train"@) by {
        assert("test"@.len() != "validation"@.len());
        assert("train"@.len() != "validation"@.len());
        assert("test"@[1] != "train"@[1]);
    }
}

/// `s` with every carriage return and line feed pair made a line feed,
/// read from the front.
pub open spec fn crlf_to_lf(s: Seq<char>) -> Seq<char>
    decreases s.len(),
{
    if s.len() == 0 {
        Seq::empty()
    } else if s.len() >= 2 && s[0] == '\r' && s[1] == '\n' {
        seq!['\n'] + crlf_to_lf(s.skip(2))
    } else {
        seq![s[0]] + crlf_to_lf(s.skip(1))
    }
}

/// Replaces every `"\r\n"` of `s` by `"\n"`.
fn normalize_newlines(s: &[char]) -> (out: Vec<char>)
    ensures
        out@ == crlf_to_lf(s@),
{
    let mut out: Vec<char> = Vec::new();
    let mut i: usize = 0;
    assert(s@.skip(0) =~= s@);
    while i < s.len()
        invariant
            i <= s@.len(),
            out@ + crlf_to_lf(s@.skip(i as int)) == crlf_to_lf(s@),
        decreases s.len() - i,
    {
        let ghost rest = s@.skip(i as int);
        if i + 1 < s.len() && s[i] == '\r' && s[i + 1] == '\n' {
            assert(rest.skip(2) =~= s@.skip(i + 2));
            out.push('\n');
            assert(out@ + crlf_to_lf(s@.skip(i + 2)) =~= crlf_to_lf(s@));
            i += 2;
        } else {
            assert(rest.skip(1) =~= s@.skip(i + 1));
            out.push(s[i]);
            assert(out@ + crlf_to_lf(s@.skip(i + 1)) =~= crlf_to_lf(s@));
            i += 1;
        }
    }
    assert(crlf_to_lf(s@.skip(i as int)) =~= Seq::<char>::empty());
    assert(out@ + Seq::<char>::empty() =~= out@);
    out
}

/// `p` occurs in `s` at `i`.
pub open spec fn occurs_at(s: Seq<char>, p: Seq<char>, i: int) -> bool {
    0 <= i && i + p.len() <= s.len() && s.subrange(i, i + p.len()) == p
}

/// The first position where `p` occurs in `s`.
pub open spec fn find(s: Seq<char>, p: Seq<char>) -> Option<int> {
    if exists|i: int| occurs_at(s, p, i) {
        Some(choose|i: int| occurs_at(s, p, i) && forall|j: int| 0 <= j < i ==> !occurs_at(s, p, j))
    } else {
        None
    }
}

/// The pieces of `s` between the occurrences of `p`, found from the front
/// without overlap (`str::split` with a string).
#[verifier::opaque]
pub open spec fn split_str(s: Seq<char>, p: Seq<char>) -> Seq<Seq<char>>
    decreases s.len(),
{
    if p.len() == 0 {
        seq![s]
    } else {
        match find(s, p) {
            None => seq![s],
            Some(i) => if 0 <= i && i + p.len() <= s.len() {
                seq![s.take(i)] + split_str(s.skip(i + p.len()), p)
            } else {
                seq![s]
            },
        }
    }
}

/// The first occurrence, when nothing occurs before it, is what `find` gives.
proof fn lemma_find_first(t: Seq<char>, p: Seq<char>, k: int)
    requires
        occurs_at(t, p, k),
        forall|j: int| 0 <= j < k ==> !occurs_at(t, p, j),
    ensures
        find(t, p) == Some(k),
{
    let i = choose|i: int| occurs_at(t, p, i) && forall|j: int| 0 <= j < i ==> !occurs_at(t, p, j);
    assert(occurs_at(t, p, i) && forall|j: int| 0 <= j < i ==> !occurs_at(t, p, j));
    if i < k {
        assert(!occurs_at(t, p, i));
    }
    if k < i {
        assert(!occurs_at(t, p, k));
    }
}

/// Whether `p` occurs in `s` at `i`.
fn occurs_at_exec(s: &[char], p: &[char], i: usize) -> (r: bool)
    ensures
        r == occurs_at(s@, p@, i as int),
{
    if i > s.len() || p.len() > s.len() - i {
        return false;
    }
    let mut k: usize = 0;
    while k < p.len()
        invariant
            i + p@.len() <= s@.len(),
            s@.len() == s.len(),
            k <= p@.len(),
            forall|t: int| 0 <= t < k ==> s@[i + t] == p@[t],
        decreases p.len() - k,
    {
        if s[i + k] != p[k] {
            assert(s@.subrange(i as int, i + p@.len())[k as int] != p@[k as int]);
            return false;
        }
        k += 1;
    }
    assert(s@.subrange(i as int, i + p@.len()) =~= p@);
    true
}

/// Occurrences in a suffix are occurrences in the whole, shifted.
proof fn lemma_occurs_skip(s: Seq<char>, p: Seq<char>, pos: int, k: int)
    requires
        0 <= pos <= s.len(),
        0 <= k,
    ensures
        occurs_at(s.skip(pos), p, k) == occurs_at(s, p, pos + k),
{
    if k + p.len() <= s.len() - pos {
        assert(s.skip(pos).subrange(k, k + p.len()) =~= s.subrange(pos + k, pos + k + p.len()));
    }
}

/// The first occurrence of `p` in `s` at or after `pos`.
fn find_from(s: &[char], p: &[char], pos: usize) -> (r: Option<usize>)
    requires
        pos <= s@.len(),
        p@.len() > 0,
    ensures
        match r {
            Some(j) => pos <= j && occurs_at(s@, p@, j as int) && forall|q: int|
                pos <= q < j ==> !occurs_at(s@, p@, q),
            None => forall|q: int| pos <= q ==> !occurs_at(s@, p@, q),
        },
{
    let mut j: usize = pos;
    while j < s.len()
        invariant
            pos <= j <= s@.len(),
            p@.len() > 0,
            forall|q: int| pos <= q < j ==> !occurs_at(s@, p@, q),
        decreases s@.len() - j,
    {
        if occurs_at_exec(s, p, j) {
            return Some(j);
        }
        j += 1;
    }
    proof {
        assert forall|q: int| pos <= q implies !occurs_at(s@, p@, q) by {
            if q >= s@.len() && occurs_at(s@, p@, q) {
                assert(q + p@.len() <= s@.len());
            }
        }
    }
    None
}

/// The characters of `s` from `a` to `b`.
fn copy_range(s: &[char], a: usize, b: usize) -> (out: Vec<char>)
    requires
        a <= b <= s@.len(),
    ensures
        out@ == s@.subrange(a as int, b as int),
{
    let mut out: Vec<char> = Vec::new();
    let mut k: usize = a;
    while k < b
        invariant
            a <= k <= b <= s@.len(),
            out@ == s@.subrange(a as int, k as int),
        decreases b - k,
    {
        out.push(s[k]);
        k += 1;
        assert(out@ =~= s@.subrange(a as int, k as int));
    }
    out
}

/// Splitting the rest of `s` from `pos` when `p` next occurs at `j`.
proof fn lemma_split_found(s: Seq<char>, p: Seq<char>, pos: int, j: int)
    requires
        p.len() > 0,
        0 <= pos <= j,
        occurs_at(s, p, j),
        forall|q: int| pos <= q < j ==> !occurs_at(s, p, q),
    ensures
        split_str(s.skip(pos), p) == seq![s.subrange(pos, j)] + split_str(s.skip(j + p.len()), p),
{
    let t = s.skip(pos);
    let kk = j - pos;
    lemma_occurs_skip(s, p, pos, kk);
    assert forall|q: int| 0 <= q < kk implies !occurs_at(t, p, q) by {
        lemma_occurs_skip(s, p, pos, q);
    }
    lemma_find_first(t, p, kk);
    assert(t.take(kk) =~= s.subrange(pos, j));
    assert(t.skip(kk + p.len()) =~= s.skip(j + p.len()));
    reveal_with_fuel(split_str, 1);
}

/// Splitting the rest of `s` from `pos` when `p` does not occur again.
proof fn lemma_split_rest(s: Seq<char>, p: Seq<char>, pos: int)
    requires
        p.len() > 0,
        0 <= pos <= s.len(),
        forall|q: int| pos <= q ==> !occurs_at(s, p, q),
    ensures
        split_str(s.skip(pos), p) == seq![s.skip(pos)],
{
    let t = s.skip(pos);
    assert forall|q: int| 0 <= q implies !occurs_at(t, p, q) by {
        lemma_occurs_skip(s, p, pos, q);
    }
    if exists|q: int| occurs_at(t, p, q) {
        let q = choose|q: int| occurs_at(t, p, q);
        assert(!occurs_at(t, p, q));
    }
    reveal_with_fuel(split_str, 1);
}

/// The pieces of `s` between the occurrences of the non-empty `p`.
#[verifier::rlimit(40)]
pub fn split_on_str(s: &[char], p: &[char]) -> (out: Vec<Vec<char>>)
    requires
        p@.len() > 0,
    ensures
        nested_view(out@) == split_str(s@, p@),
{
    let mut out: Vec<Vec<char>> = Vec::new();
    let mut pos: usize = 0;
    assert(s@.skip(0) =~= s@);
    loop
        invariant
            p@.len() > 0,
            pos <= s@.len(),
            s@.len() == s.len(),
            nested_view(out@) + split_str(s@.skip(pos as int), p@) == split_str(s@, p@),
        decreases s@.len() - pos,
    {
        let ghost before = nested_view(out@);
        match find_from(s, p, pos) {
            Some(j) => {
                let piece = copy_range(s, pos, j);
                let ghost rest = split_str(s@.skip(j + p@.len()), p@);
                proof {
                    lemma_split_found(s@, p@, pos as int, j as int);
                }
                out.push(piece);
                proof {
                    assert(nested_view(out@) =~= before.push(piece@));
                    assert(before.push(piece@) + rest =~= before + (seq![piece@] + rest));
                }
                pos = j + p.len();
            },
            None => {
                let piece = copy_range(s, pos, s.len());
                proof {
                    lemma_split_rest(s@, p@, pos as int);
                    assert(piece@ =~= s@.skip(pos as int));
                }
                out.push(piece);
                assert(nested_view(out@) =~= before.push(piece@));
                return out;
            },
        }
    }
}

/// A document of the corpus, with where it came from.
#[derive(Clone, Debug)]
pub struct Doc {
    pub id: u64,
    pub title: String,
    pub license: String,
    pub text: String,
    pub source: String,
}

/// A document as plain values.
pub struct DocView {
    pub id: u64,
    pub title: Seq<char>,
    pub license: Seq<char>,
    pub text: Seq<char>,
    pub source: Seq<char>,
}

impl Doc {
    /// The document as plain values.
    pub open spec fn view(&self) -> DocView {
        DocView {
            id: self.id,
            title: self.title@,
            license: self.license@,
            text: self.text@,
            source: self.source@,
        }
    }
}

/// The title, license and cleaned text of one raw document, or why it is
/// refused: after trimming, its first line is `Title: ..`, its second
/// `License: ..`, and the rest is its text.
pub open spec fn doc_fields(raw: Seq<char>) -> Result<(Seq<char>, Seq<char>, Seq<char>), &'static str> {
    let ls = lines(trim(raw));
    if ls.len() < 1 {
        Err("document missing Title")
    } else {
        match strip_prefix_spec(ls[0], "Title: "@) {
            None => Err("document missing Title"),
            Some(title) => if ls.len() < 2 {
                Err("document missing License")
            } else {
                match strip_prefix_spec(ls[1], "License: "@) {
                    None => Err("document missing License"),
                    Some(license) => {
                        let text = clean_spec(join(ls.skip(2), ' '));
                        if trim(title).len() == 0 || trim(license).len() == 0 || text.len() == 0 {
                            Err("document title, license, and text must be nonempty")
                        } else {
                            Ok((title, license, text))
                        }
                    },
                }
            },
        }
    }
}

/// The id of a document: the hash of the UTF-8 bytes of its title, a line
/// feed and its text.
pub open spec fn doc_id(title: Seq<char>, text: Seq<char>) -> u64 {
    fnv1a(encode_utf8(title + seq!['\n'] + text))
}

/// The fields of every raw document, or the first refusal in order.
pub open spec fn all_fields(raws: Seq<Seq<char>>) -> Result<Seq<(Seq<char>, Seq<char>, Seq<char>)>, &'static str>
    decreases raws.len(),
{
    if raws.len() == 0 {
        Ok(Seq::empty())
    } else {
        match all_fields(raws.drop_last()) {
            Err(e) => Err(e),
            Ok(fs) => match doc_fields(raws.last()) {
                Err(e) => Err(e),
                Ok(f) => Ok(fs.push(f)),
            },
        }
    }
}

/// Two documents share an id but differ in title or text.
pub open spec fn has_collision(docs: Seq<DocView>) -> bool {
    exists|i: int, j: int|
        0 <= i < j < docs.len() && #[trigger] docs[i].id == #[trigger] docs[j].id && (docs[i].title
            != docs[j].title || docs[i].text != docs[j].text)
}

/// The separator between documents of a bundle.
pub open spec fn doc_separator() -> Seq<char> {
    "\n===DOC===\n"@
}

/// The documents of a bundle read from `source`, or why it is refused.
pub open spec fn parse_spec(input: Seq<char>, source: Seq<char>) -> Result<Seq<DocView>, &'static str> {
    match all_fields(split_str(crlf_to_lf(input), doc_separator())) {
        Err(e) => Err(e),
        Ok(fs) => {
            let docs = Seq::new(
                fs.len(),
                |i: int|
                    DocView {
                        id: doc_id(fs[i].0, fs[i].2),
                        title: fs[i].0,
                        license: fs[i].1,
                        text: fs[i].2,
                        source,
                    },
            );
            if has_collision(docs) {
                Err("document hash collision")
            } else {
                Ok(docs)
            }
        },
    }
}

/// The title, license and cleaned text of one raw document.
fn parse_fields(raw: &[char]) -> (r: Result<(Vec<char>, Vec<char>, Vec<char>), &'static str>)
    ensures
        match r {
            Ok((t, l, x)) => doc_fields(raw@) == Ok::<(Seq<char>, Seq<char>, Seq<char>), &'static str>(
                (t@, l@, x@),
            ),
            Err(e) => doc_fields(raw@) == Err::<(Seq<char>, Seq<char>, Seq<char>), &'static str>(e),
        },
{
    let trimmed = trim_chars(raw);
    let ls = split_lines(&trimmed);
    let ghost lv = nested_view(ls@);
    assert(lv == lines(trim(raw@)));
    if ls.len() < 1 {
        return Err("document missing Title");
    }
    assert(ls@[0]@ == lv[0]);
    let title = match strip_prefix(&ls[0], "Title: ") {
        None => {
            return Err("document missing Title");
        },
        Some(t) => t,
    };
    if ls.len() < 2 {
        return Err("document missing License");
    }
    assert(ls@[1]@ == lv[1]);
    let license = match strip_prefix(&ls[1], "License: ") {
        None => {
            return Err("document missing License");
        },
        Some(l) => l,
    };
    let mut rest: Vec<Vec<char>> = Vec::new();
    let mut i: usize = 2;
    while i < ls.len()
        invariant
            2 <= i <= ls@.len(),
            lv == nested_view(ls@),
            nested_view(rest@) == lv.subrange(2, i as int),
        decreases ls.len() - i,
    {
        let ghost before = rest@;
        let mut line: Vec<char> = Vec::new();
        let mut k: usize = 0;
        while k < ls[i].len()
            invariant
                k <= ls@[i as int]@.len(),
                i < ls@.len(),
                line@ == ls@[i as int]@.take(k as int),
            decreases ls@[i as int]@.len() - k,
        {
            line.push(ls[i][k]);
            k += 1;
            assert(line@ =~= ls@[i as int]@.take(k as int));
        }
        assert(line@ =~= lv[i as int]);
        rest.push(line);
        assert(nested_view(rest@) =~= nested_view(before).push(lv[i as int]));
        assert(lv.subrange(2, i + 1) =~= lv.subrange(2, i as int).push(lv[i as int]));
        i += 1;
    }
    assert(lv.subrange(2, ls@.len() as int) =~= lv.skip(2));
    let joined = join_chars(&rest, ' ');
    let text = clean_chars(&joined);
    if trim_chars(&title).len() == 0 || trim_chars(&license).len() == 0 || text.len() == 0 {
        return Err("document title, license, and text must be nonempty");
    }
    Ok((title, license, text))
}

/// The id of the document with this title and text.
fn doc_id_exec(title: &[char], text: &[char]) -> (id: u64)
    ensures
        id == doc_id(title@, text@),
{
    let mut all: Vec<char> = Vec::new();
    let mut k: usize = 0;
    while k < title.len()
        invariant
            k <= title@.len(),
            all@ == title@.take(k as int),
        decreases title.len() - k,
    {
        all.push(title[k]);
        k += 1;
        assert(all@ =~= title@.take(k as int));
    }
    all.push('\n');
    let mut k: usize = 0;
    let ghost head = all@;
    while k < text.len()
        invariant
            k <= text@.len(),
            all@ == head + text@.take(k as int),
        decreases text.len() - k,
    {
        all.push(text[k]);
        k += 1;
        assert(all@ =~= head + text@.take(k as int));
    }
    assert(all@ =~= title@ + seq!['\n'] + text@);
    let joined = string_from_chars(&all);
    hash(joined.as_str().as_bytes())
}

/// Parses a bundle of documents separated by `===DOC===` lines, naming
/// each by its content and recording `source` as its provenance.
pub fn parse(input: &str, source: &str) -> (r: Result<Vec<Doc>, &'static str>)
    ensures
        match r {
            Ok(docs) => parse_spec(input@, source@) == Ok::<Seq<DocView>, &'static str>(
                docs@.map_values(|d: Doc| d.view()),
            ),
            Err(e) => parse_spec(input@, source@) == Err::<Seq<DocView>, &'static str>(e),
        },
{
    let normalized = normalize_newlines(&chars_of(input));
    let sep = chars_of("\n===DOC===\n");
    proof {
        reveal_strlit("\n===DOC===\n");
    }
    let raws = split_on_str(&normalized, &sep);
    let ghost rv = nested_view(raws@);
    let mut fields: Vec<(Vec<char>, Vec<char>, Vec<char>)> = Vec::new();
    let mut i: usize = 0;
    assert(rv.take(0) =~= Seq::<Seq<char>>::empty());
    assert(fields@.map_values(|f: (Vec<char>, Vec<char>, Vec<char>)| (f.0@, f.1@, f.2@)) =~= Seq::<
        (Seq<char>, Seq<char>, Seq<char>),
    >::empty());
    while i < raws.len()
        invariant
            i <= raws@.len(),
            rv == nested_view(raws@),
            rv == split_str(crlf_to_lf(input@), doc_separator()),
            all_fields(rv.take(i as int)) == Ok::<Seq<(Seq<char>, Seq<char>, Seq<char>)>, &'static str>(
                fields@.map_values(|f: (Vec<char>, Vec<char>, Vec<char>)| (f.0@, f.1@, f.2@)),
            ),
        decreases raws.len() - i,
    {
        assert(rv.take(i + 1).drop_last() =~= rv.take(i as int));
        assert(rv.take(i + 1).last() == raws@[i as int]@);
        match parse_fields(&raws[i]) {
            Err(e) => {
                assert(all_fields(rv.take(i + 1)) == Err::<Seq<(Seq<char>, Seq<char>, Seq<char>)>, &'static str>(e));
                proof {
                    lemma_all_fields_prefix_err(rv, i + 1);
                }
                return Err(e);
            },
            Ok(f) => {
                let ghost before = fields@;
                fields.push(f);
                assert(fields@.map_values(|f: (Vec<char>, Vec<char>, Vec<char>)| (f.0@, f.1@, f.2@)) =~= before.map_values(
                    |f: (Vec<char>, Vec<char>, Vec<char>)| (f.0@, f.1@, f.2@),
                ).push((f.0@, f.1@, f.2@)));
            },
        }
        i += 1;
    }
    assert(rv.take(raws@.len() as int) =~= rv);
    let mut docs: Vec<Doc> = Vec::new();
    let mut k: usize = 0;
    while k < fields.len()
        invariant
            k <= fields@.len(),
            docs@.len() == k,
            forall|j: int|
                0 <= j < k ==> (#[trigger] docs@[j]).view() == (DocView {
                    id: doc_id(fields@[j].0@, fields@[j].2@),
                    title: fields@[j].0@,
                    license: fields@[j].1@,
                    text: fields@[j].2@,
                    source: source@,
                }),
        decreases fields.len() - k,
    {
        let f = &fields[k];
        let id = doc_id_exec(&f.0, &f.2);
        docs.push(Doc {
            id,
            title: string_from_chars(&f.0),
            license: string_from_chars(&f.1),
            text: string_from_chars(&f.2),
            source: source.to_owned(),
        });
        k += 1;
    }
    let ghost fs = fields@.map_values(|f: (Vec<char>, Vec<char>, Vec<char>)| (f.0@, f.1@, f.2@));
    let ghost dv = docs@.map_values(|d: Doc| d.view());
    assert(dv =~= Seq::new(
        fs.len(),
        |i: int|
            DocView { id: doc_id(fs[i].0, fs[i].2), title: fs[i].0, license: fs[i].1, text: fs[i].2, source: source@ },
    ));
    assert(parse_spec(input@, source@) == if has_collision(dv) {
        Err::<Seq<DocView>, &'static str>("document hash collision")
    } else {
        Ok::<Seq<DocView>, &'static str>(dv)
    });
    let mut j: usize = 0;
    while j < docs.len()
        invariant
            j <= docs@.len(),
            dv == docs@.map_values(|d: Doc| d.view()),
            parse_spec(input@, source@) == if has_collision(dv) {
                Err::<Seq<DocView>, &'static str>("document hash collision")
            } else {
                Ok::<Seq<DocView>, &'static str>(dv)
            },
            forall|a: int, b: int|
                0 <= a < b < j ==> !(#[trigger] dv[a].id == #[trigger] dv[b].id && (dv[a].title
                    != dv[b].title || dv[a].text != dv[b].text)),
        decreases docs.len() - j,
    {
        let mut a: usize = 0;
        while a < j
            invariant
                a <= j < docs@.len(),
                dv == docs@.map_values(|d: Doc| d.view()),
                parse_spec(input@, source@) == if has_collision(dv) {
                    Err::<Seq<DocView>, &'static str>("document hash collision")
                } else {
                    Ok::<Seq<DocView>, &'static str>(dv)
                },
                forall|x: int| 0 <= x < a ==> !(dv[x].id == dv[j as int].id && (dv[x].title
                    != dv[j as int].title || dv[x].text != dv[j as int].text)),
            decreases j - a,
        {
            if docs[a].id == docs[j].id && (!(docs[a].title == docs[j].title) || !(docs[a].text
                == docs[j].text)) {
                assert(has_collision(dv)) by {
                    assert(dv[a as int].id == dv[j as int].id);
                }
                return Err("document hash collision");
            }
            a += 1;
        }
        j += 1;
    }
    Ok(docs)
}

/// A refusal of some document is a refusal of every longer run that
/// contains it.
proof fn lemma_all_fields_prefix_err(raws: Seq<Seq<char>>, n: int)
    requires
        0 <= n <= raws.len(),
        all_fields(raws.take(n)) is Err,
    ensures
        all_fields(raws) == all_fields(raws.take(n)),
    decreases raws.len() - n,
{
    if n < raws.len() {
        assert(raws.take(n + 1).drop_last() =~= raws.take(n));
        lemma_all_fields_prefix_err(raws, n + 1);
    } else {
        assert(raws.take(n) =~= raws);
    }
}

/// What `str::to_lowercase` makes of `s`: the Unicode lower case of each
/// character, some of them more than one character long.
pub uninterp spec fn lowercase(s: Seq<char>) -> Seq<char>;

/// `str::to_lowercase`. Its contract names the result and claims nothing
/// else: lower-casing follows the Unicode tables.
#[verifier::external_body]
fn to_lowercase(s: &str) -> (r: String)
    ensures
        r@ == lowercase(s@),
{
    s.to_lowercase()
}

/// The runs of three consecutive words of `ws`, in order.
pub open spec fn triples(ws: Seq<Seq<char>>) -> Seq<Seq<Seq<char>>> {
    Seq::new(if ws.len() >= 3 { (ws.len() - 2) as nat } else { 0 }, |i: int| ws.subrange(i, i + 3))
}

/// `a` and `b` hold the same entries.
pub open spec fn same_entries(a: Seq<Seq<Seq<char>>>, b: Seq<Seq<Seq<char>>>) -> bool {
    forall|t: Seq<Seq<char>>| a.contains(t) <==> b.contains(t)
}

/// The word shingles of `text`: its distinct runs of three consecutive
/// lower-cased words, in increasing order (the one strictly increasing
/// sequence that holds exactly those runs).
pub open spec fn shingles_spec(text: Seq<char>) -> Seq<Seq<Seq<char>>> {
    choose|v: Seq<Seq<Seq<char>>>| strictly_increasing(v) && same_entries(v, triples(words(lowercase(text))))
}

/// The runs that the start positions `idx` pick out of `all`.
pub open spec fn picked(all: Seq<Seq<Seq<char>>>, idx: Seq<usize>) -> Seq<Seq<Seq<char>>> {
    idx.map_values(|s: usize| all[s as int])
}

/// The contents of a list of word lists.
pub open spec fn shingles_view(v: Seq<Vec<String>>) -> Seq<Seq<Seq<char>>> {
    v.map_values(|t: Vec<String>| t@.map_values(|w: String| w@))
}

/// Whether the two word lists hold the same words.
fn same_words(a: &Vec<String>, b: &Vec<String>) -> (r: bool)
    ensures
        r == (a@.map_values(|w: String| w@) == b@.map_values(|w: String| w@)),
{
    if a.len() != b.len() {
        assert(a@.map_values(|w: String| w@).len() != b@.map_values(|w: String| w@).len());
        return false;
    }
    let mut k: usize = 0;
    while k < a.len()
        invariant
            k <= a@.len(),
            a@.len() == b@.len(),
            forall|t: int| 0 <= t < k ==> a@[t]@ == b@[t]@,
        decreases a.len() - k,
    {
        if !(a[k] == b[k]) {
            assert(a@.map_values(|w: String| w@)[k as int] != b@.map_values(|w: String| w@)[k as int]);
            return false;
        }
        k += 1;
    }
    assert(a@.map_values(|w: String| w@) =~= b@.map_values(|w: String| w@));
    true
}

/// Whether `t` is among `ts`.
fn contains_shingle(ts: &Vec<Vec<String>>, t: &Vec<String>) -> (r: bool)
    ensures
        r == shingles_view(ts@).contains(t@.map_values(|w: String| w@)),
{
    let ghost tv = t@.map_values(|w: String| w@);
    let mut k: usize = 0;
    while k < ts.len()
        invariant
            k <= ts@.len(),
            tv == t@.map_values(|w: String| w@),
            forall|j: int| 0 <= j < k ==> shingles_view(ts@)[j] != tv,
        decreases ts.len() - k,
    {
        if same_words(&ts[k], t) {
            assert(shingles_view(ts@)[k as int] == tv);
            return true;
        }
        k += 1;
    }
    proof {
        if shingles_view(ts@).contains(tv) {
            let j = choose|j: int| 0 <= j < shingles_view(ts@).len() && shingles_view(ts@)[j] == tv;
            assert(shingles_view(ts@)[j] != tv);
        }
    }
    false
}

/// Whether the three words from `i` come before the three words from `j`.
fn triple_less(ws: &Vec<Vec<char>>, i: usize, j: usize) -> (r: bool)
    requires
        i + 3 <= ws@.len(),
        j + 3 <= ws@.len(),
    ensures
        r == words_before(
            nested_view(ws@).subrange(i as int, i + 3),
            nested_view(ws@).subrange(j as int, j + 3),
        ),
{
    let ghost a = nested_view(ws@).subrange(i as int, i + 3);
    let ghost b = nested_view(ws@).subrange(j as int, j + 3);
    assert(a.skip(0) =~= a && b.skip(0) =~= b);
    let mut k: usize = 0;
    while k < 3
        invariant
            k <= 3,
            i + 3 <= ws@.len(),
            j + 3 <= ws@.len(),
            ws@.len() == ws.len(),
            a == nested_view(ws@).subrange(i as int, i + 3),
            b == nested_view(ws@).subrange(j as int, j + 3),
            words_before(a, b) == words_before(a.skip(k as int), b.skip(k as int)),
        decreases 3 - k,
    {
        proof {
            lemma_words_step(a, b, k as int);
            assert(a[k as int] == ws@[i + k]@ && b[k as int] == ws@[j + k]@);
        }
        if text_less(ws[i + k].as_slice(), ws[j + k].as_slice()) {
            return true;
        }
        if text_less(ws[j + k].as_slice(), ws[i + k].as_slice()) {
            proof {
                lemma_text_irreflexive(a[k as int]);
            }
            return false;
        }
        proof {
            if a[k as int] != b[k as int] {
                lemma_text_total(a[k as int], b[k as int]);
            }
        }
        k += 1;
    }
    false
}

/// The first position in `idx` whose run does not come before the run
/// from `i`.
fn insertion_point(ws: &Vec<Vec<char>>, idx: &Vec<usize>, i: usize) -> (p: usize)
    requires
        i + 3 <= ws@.len(),
        forall|k: int| 0 <= k < idx@.len() ==> #[trigger] idx@[k] + 3 <= ws@.len(),
    ensures
        p <= idx@.len(),
        forall|k: int| 0 <= k < p ==> words_before(
            #[trigger] picked(triples(nested_view(ws@)), idx@)[k],
            triples(nested_view(ws@))[i as int],
        ),
        p < idx@.len() ==> !words_before(
            picked(triples(nested_view(ws@)), idx@)[p as int],
            triples(nested_view(ws@))[i as int],
        ),
{
    let ghost all = triples(nested_view(ws@));
    let ghost v = picked(all, idx@);
    let mut p: usize = 0;
    loop
        invariant
            i + 3 <= ws@.len(),
            forall|k: int| 0 <= k < idx@.len() ==> #[trigger] idx@[k] + 3 <= ws@.len(),
            all == triples(nested_view(ws@)),
            v == picked(all, idx@),
            p <= idx@.len(),
            forall|k: int| 0 <= k < p ==> words_before(#[trigger] v[k], all[i as int]),
        decreases idx@.len() - p,
    {
        if p == idx.len() {
            return p;
        }
        let s = idx[p];
        assert(v[p as int] == all[s as int]);
        if !triple_less(ws, s, i) {
            return p;
        }
        p += 1;
    }
}

/// The word shingles of `text`: its distinct runs of three consecutive
/// lower-cased words, in increasing order as lists of strings compare.
pub fn shingles(text: &str) -> (out: Vec<Vec<String>>)
    ensures
        shingles_view(out@) == shingles_spec(text@),
        strictly_increasing(shingles_view(out@)),
        same_entries(shingles_view(out@), triples(words(lowercase(text@)))),
{
    let lower = to_lowercase(text);
    let ws = split_words(&chars_of(lower.as_str()));
    let ghost wv = nested_view(ws@);
    assert(wv == words(lowercase(text@)));
    let ghost all = triples(wv);
    let mut idx: Vec<usize> = Vec::new();
    let count = if ws.len() < 3 { 0 } else { ws.len() - 2 };
    assert(all.len() == count);
    assert(all.take(0) =~= Seq::<Seq<Seq<char>>>::empty());
    assert(picked(all, idx@) =~= Seq::<Seq<Seq<char>>>::empty());
    let mut i: usize = 0;
    while i < count
        invariant
            count == all.len(),
            count > 0 ==> count == ws@.len() - 2,
            i <= count,
            wv == nested_view(ws@),
            all == triples(wv),
            forall|k: int| 0 <= k < idx@.len() ==> #[trigger] idx@[k] < count,
            strictly_increasing(picked(all, idx@)),
            same_entries(picked(all, idx@), all.take(i as int)),
        decreases count - i,
    {
        let ghost before = picked(all, idx@);
        let ghost t = all[i as int];
        let ghost prev = all.take(i as int);
        let ghost next = all.take(i + 1);
        assert(next =~= prev.push(t));
        let p = insertion_point(&ws, &idx, i);
        let present = if p < idx.len() {
            let s = idx[p];
            !triple_less(&ws, i, s)
        } else {
            false
        };
        if present {
            proof {
                let u = before[p as int];
                if u != t {
                    lemma_words_total(u, t);
                }
                assert(u == t);
                assert forall|x: Seq<Seq<char>>| before.contains(x) <==> next.contains(x) by {
                    if x == t {
                        assert(before[p as int] == x);
                        assert(next[i as int] == x);
                    }
                    if next.contains(x) {
                        let m = choose|m: int| 0 <= m < i + 1 && next[m] == x;
                        if m < i {
                            assert(prev[m] == x);
                        }
                    }
                    if prev.contains(x) {
                        let m = choose|m: int| 0 <= m < i && prev[m] == x;
                        assert(next[m] == x);
                    }
                }
            }
        } else {
            proof {
                if p < before.len() {
                    let u = before[p as int];
                    if u != t {
                        lemma_words_total(u, t);
                    } else {
                        lemma_words_irreflexive(t);
                    }
                }
                lemma_insert_increasing(before, p as int, t);
            }
            idx.insert(p, i);
            proof {
                let after = picked(all, idx@);
                assert(after =~= before.insert(p as int, t));
                assert forall|x: Seq<Seq<char>>| after.contains(x) <==> next.contains(x) by {
                    if after.contains(x) {
                        let m = choose|m: int| 0 <= m < after.len() && after[m] == x;
                        if m < p {
                            assert(before[m] == x);
                        } else if m > p {
                            assert(before[m - 1] == x);
                        }
                        if x != t {
                            assert(before.contains(x));
                            let n = choose|n: int| 0 <= n < i && prev[n] == x;
                            assert(next[n] == x);
                        } else {
                            assert(next[i as int] == x);
                        }
                    }
                    if next.contains(x) {
                        let m = choose|m: int| 0 <= m < i + 1 && next[m] == x;
                        if m < i {
                            assert(prev[m] == x);
                            assert(before.contains(x));
                            let n = choose|n: int| 0 <= n < before.len() && before[n] == x;
                            if n < p {
                                assert(after[n] == x);
                            } else {
                                assert(after[n + 1] == x);
                            }
                        } else {
                            assert(after[p as int] == x);
                        }
                    }
                }
            }
        }
        i += 1;
    }
    assert(all.take(count as int) =~= all);
    let mut out: Vec<Vec<String>> = Vec::new();
    let mut k: usize = 0;
    assert(shingles_view(out@) =~= picked(all, idx@).take(0));
    while k < idx.len()
        invariant
            k <= idx@.len(),
            count == all.len(),
            count > 0 ==> count == ws@.len() - 2,
            wv == nested_view(ws@),
            all == triples(wv),
            forall|j: int| 0 <= j < idx@.len() ==> #[trigger] idx@[j] < count,
            shingles_view(out@) == picked(all, idx@).take(k as int),
            ws@.len() == ws.len(),
        decreases idx.len() - k,
    {
        let s = idx[k];
        let mut t: Vec<String> = Vec::new();
        t.push(string_from_chars(&ws[s]));
        t.push(string_from_chars(&ws[s + 1]));
        t.push(string_from_chars(&ws[s + 2]));
        let ghost tv = t@.map_values(|w: String| w@);
        assert(tv =~= all[s as int]);
        let ghost before = out@;
        out.push(t);
        assert(shingles_view(out@) =~= shingles_view(before).push(tv));
        assert(picked(all, idx@).take(k + 1) =~= picked(all, idx@).take(k as int).push(all[s as int]));
        k += 1;
    }
    let ghost v = shingles_view(out@);
    assert(v =~= picked(all, idx@));
    proof {
        let w = shingles_spec(text@);
        assert(strictly_increasing(v) && same_entries(v, all));
        lemma_increasing_unique(v, w);
    }
    out
}

/// How many entries of `a` are also in `b`.
pub open spec fn shared_count<T>(a: Seq<T>, b: Seq<T>) -> nat
    decreases a.len(),
{
    if a.len() == 0 {
        0
    } else {
        shared_count(a.drop_last(), b) + if b.contains(a.last()) {
            1nat
        } else {
            0nat
        }
    }
}

/// How many shingles two texts share, and how many each has: the union
/// of the two shingle sets has the sum of the last two less the first.
pub fn shingle_overlap(left: &str, right: &str) -> (r: (usize, usize, usize))
    ensures
        r.0 == shared_count(shingles_spec(left@), shingles_spec(right@)),
        r.1 == shingles_spec(left@).len(),
        r.2 == shingles_spec(right@).len(),
        r.0 <= r.1,
{
    let a = shingles(left);
    let b = shingles(right);
    let ghost av = shingles_view(a@);
    let mut shared: usize = 0;
    let mut i: usize = 0;
    while i < a.len()
        invariant
            i <= a@.len(),
            av == shingles_view(a@),
            shared == shared_count(av.take(i as int), shingles_view(b@)),
            shared <= i,
        decreases a.len() - i,
    {
        assert(av.take(i + 1).drop_last() =~= av.take(i as int));
        if contains_shingle(&b, &a[i]) {
            shared += 1;
        }
        i += 1;
    }
    assert(av.take(a@.len() as int) =~= av);
    proof {
        lemma_shared_count_bound(av, shingles_view(b@));
    }
    (shared, a.len(), b.len())
}

/// No more entries are shared than `a` holds.
proof fn lemma_shared_count_bound<T>(a: Seq<T>, b: Seq<T>)
    ensures
        shared_count(a, b) <= a.len(),
    decreases a.len(),
{
    if a.len() > 0 {
        lemma_shared_count_bound(a.drop_last(), b);
    }
}

/// `s` with every line feed written as a carriage return and line feed.
pub open spec fn to_crlf(s: Seq<char>) -> Seq<char>
    decreases s.len(),
{
    if s.len() == 0 {
        Seq::empty()
    } else if s[0] == '\n' {
        seq!['\r', '\n'] + to_crlf(s.skip(1))
    } else {
        seq![s[0]] + to_crlf(s.skip(1))
    }
}

/// Normalising newlines undoes writing them as carriage return and line
/// feed, and leaves text without carriage returns as it is.
proof fn lemma_crlf_round_trip(s: Seq<char>)
    requires
        forall|i: int| 0 <= i < s.len() ==> s[i] != '\r',
    ensures
        crlf_to_lf(to_crlf(s)) == s,
        crlf_to_lf(s) == s,
    decreases s.len(),
{
    if s.len() > 0 {
        let rest = s.skip(1);
        lemma_crlf_round_trip(rest);
        let t = to_crlf(s);
        if s[0] == '\n' {
            assert(t.skip(2) =~= to_crlf(rest));
        } else {
            assert(t.skip(1) =~= to_crlf(rest));
            if t.len() >= 2 {
                assert(t[0] == s[0]);
            }
        }
        assert(seq![s[0]] + rest =~= s);
        if s.len() >= 2 {
            assert(s[0] != '\r');
        }
    }
}

/// A bundle written with Windows line endings parses into the same
/// documents as with Unix line endings.
pub proof fn lemma_parse_ignores_crlf(input: Seq<char>, source: Seq<char>)
    requires
        forall|i: int| 0 <= i < input.len() ==> input[i] != '\r',
    ensures
        parse_spec(to_crlf(input), source) == parse_spec(input, source),
{
    lemma_crlf_round_trip(input);
}

} // verus!
