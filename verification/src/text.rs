//! Character-level helpers shared by the text-processing modules.
use vstd::prelude::*;

verus! {

/// The characters of `s`, in order.
pub fn chars_of(s: &str) -> (out: Vec<char>)
    ensures
        out@ == s@,
{
    let mut out: Vec<char> = Vec::new();
    for c in it: s.chars()
        invariant
            out@ == it.seq().take(it.index() as int),
    {
        out.push(c);
    }
    out
}

/// Appends one character to a string (`String::push`).
#[verifier::external_body]
pub(crate) fn push_char(s: &mut String, c: char)
    ensures
        final(s)@ == old(s)@.push(c),
{
    s.push(c);
}

/// A string holding exactly the characters of `cs`.
pub fn string_from_chars(cs: &[char]) -> (out: String)
    ensures
        out@ == cs@,
{
    let mut out = String::new();
    let mut i: usize = 0;
    while i < cs.len()
        invariant
            i <= cs.len(),
            out@ == cs@.take(i as int),
        decreases cs.len() - i,
    {
        push_char(&mut out, cs[i]);
        i += 1;
        assert(out@ =~= cs@.take(i as int));
    }
    assert(cs@.take(cs.len() as int) =~= cs@);
    out
}

/// Appends the bytes of `src` to `out`.
pub fn extend_bytes(out: &mut Vec<u8>, src: &[u8])
    ensures
        final(out)@ == old(out)@ + src@,
{
    let mut i: usize = 0;
    while i < src.len()
        invariant
            i <= src.len(),
            out@ == old(out)@ + src@.take(i as int),
        decreases src.len() - i,
    {
        out.push(src[i]);
        i += 1;
        assert(out@ =~= old(out)@ + src@.take(i as int));
    }
    assert(src@.take(src.len() as int) =~= src@);
}

/// Unicode `White_Space`: the characters `char::is_whitespace` accepts.
pub open spec fn white_space(c: char) -> bool {
    let u = c as u32;
    ||| 0x09 <= u <= 0x0d
    ||| u == 0x20
    ||| u == 0x85
    ||| u == 0xa0
    ||| u == 0x1680
    ||| 0x2000 <= u <= 0x200a
    ||| u == 0x2028
    ||| u == 0x2029
    ||| u == 0x202f
    ||| u == 0x205f
    ||| u == 0x3000
}

/// Whether `c` is Unicode white space.
pub fn is_white_space(c: char) -> (r: bool)
    ensures
        r == white_space(c),
{
    let u = c as u32;
    (0x09 <= u && u <= 0x0d) || u == 0x20 || u == 0x85 || u == 0xa0 || u == 0x1680 || (0x2000 <= u
        && u <= 0x200a) || u == 0x2028 || u == 0x2029 || u == 0x202f || u == 0x205f || u == 0x3000
}

/// The contents of vectors held in a vector.
pub open spec fn nested_view<T>(v: Seq<Vec<T>>) -> Seq<Seq<T>> {
    v.map_values(|e: Vec<T>| e@)
}

/// Scanning `s` for runs of characters separated by white space: the runs
/// finished so far, and the run in progress.
pub open spec fn word_state(s: Seq<char>) -> (Seq<Seq<char>>, Seq<char>)
    decreases s.len(),
{
    if s.len() == 0 {
        (Seq::empty(), Seq::empty())
    } else {
        let (done, cur) = word_state(s.drop_last());
        if white_space(s.last()) {
            if cur.len() > 0 {
                (done.push(cur), Seq::empty())
            } else {
                (done, Seq::empty())
            }
        } else {
            (done, cur.push(s.last()))
        }
    }
}

/// The maximal runs of non-white-space characters of `s`, in order
/// (`str::split_whitespace`).
pub open spec fn words(s: Seq<char>) -> Seq<Seq<char>> {
    let (done, cur) = word_state(s);
    if cur.len() > 0 {
        done.push(cur)
    } else {
        done
    }
}

/// `line` without one trailing carriage return.
pub open spec fn strip_cr(line: Seq<char>) -> Seq<char> {
    if line.len() > 0 && line.last() == '\r' {
        line.drop_last()
    } else {
        line
    }
}

/// Scanning `s` for lines: the lines ended by a line feed so far (each
/// without a trailing carriage return), and the text after the last line feed.
pub open spec fn line_state(s: Seq<char>) -> (Seq<Seq<char>>, Seq<char>)
    decreases s.len(),
{
    if s.len() == 0 {
        (Seq::empty(), Seq::empty())
    } else {
        let (done, cur) = line_state(s.drop_last());
        if s.last() == '\n' {
            (done.push(strip_cr(cur)), Seq::empty())
        } else {
            (done, cur.push(s.last()))
        }
    }
}

/// The lines of `s` as `str::lines` gives them: split at line feeds, one
/// carriage return before each line feed removed, and no empty line after
/// a final line feed.
pub open spec fn lines(s: Seq<char>) -> Seq<Seq<char>> {
    let (done, cur) = line_state(s);
    if cur.len() > 0 {
        done.push(cur)
    } else {
        done
    }
}

/// The white-space separated words of `s`.
pub fn split_words(s: &[char]) -> (out: Vec<Vec<char>>)
    ensures
        nested_view(out@) == words(s@),
{
    let mut done: Vec<Vec<char>> = Vec::new();
    let mut cur: Vec<char> = Vec::new();
    let mut i: usize = 0;
    while i < s.len()
        invariant
            i <= s.len(),
            (nested_view(done@), cur@) == word_state(s@.take(i as int)),
        decreases s.len() - i,
    {
        assert(s@.take(i + 1).drop_last() =~= s@.take(i as int));
        let c = s[i];
        if is_white_space(c) {
            if cur.len() > 0 {
                let ghost before = done@;
                let finished = cur;
                done.push(finished);
                assert(nested_view(done@) =~= nested_view(before).push(finished@));
                cur = Vec::new();
            }
        } else {
            cur.push(c);
        }
        i += 1;
        assert(cur@ =~= word_state(s@.take(i as int)).1);
    }
    assert(s@.take(s.len() as int) =~= s@);
    if cur.len() > 0 {
        let ghost before = done@;
        let finished = cur;
        done.push(finished);
        assert(nested_view(done@) =~= nested_view(before).push(finished@));
    }
    done
}

/// The lines of `s`, split as `str::lines` splits them.
pub fn split_lines(s: &[char]) -> (out: Vec<Vec<char>>)
    ensures
        nested_view(out@) == lines(s@),
{
    let mut done: Vec<Vec<char>> = Vec::new();
    let mut cur: Vec<char> = Vec::new();
    let mut i: usize = 0;
    while i < s.len()
        invariant
            i <= s.len(),
            (nested_view(done@), cur@) == line_state(s@.take(i as int)),
        decreases s.len() - i,
    {
        assert(s@.take(i + 1).drop_last() =~= s@.take(i as int));
        let c = s[i];
        if c == '\n' {
            let ghost before = done@;
            let mut finished = cur;
            if finished.len() > 0 && finished[finished.len() - 1] == '\r' {
                finished.pop();
            }
            assert(finished@ =~= strip_cr(line_state(s@.take(i as int)).1));
            done.push(finished);
            assert(nested_view(done@) =~= nested_view(before).push(finished@));
            cur = Vec::new();
        } else {
            cur.push(c);
        }
        i += 1;
        assert(cur@ =~= line_state(s@.take(i as int)).1);
    }
    assert(s@.take(s.len() as int) =~= s@);
    if cur.len() > 0 {
        let ghost before = done@;
        let finished = cur;
        done.push(finished);
        assert(nested_view(done@) =~= nested_view(before).push(finished@));
    }
    done
}

/// The value of an ASCII decimal digit.
pub open spec fn digit_value(c: char) -> nat {
    ((c as u32) - ('0' as u32)) as nat
}

/// `c` is an ASCII decimal digit.
pub open spec fn is_digit(c: char) -> bool {
    '0' <= c && c <= '9'
}

/// The number that a sequence of decimal digits denotes.
pub open spec fn digits_value(d: Seq<char>) -> nat
    decreases d.len(),
{
    if d.len() == 0 {
        0
    } else {
        digits_value(d.drop_last()) * 10 + digit_value(d.last())
    }
}

/// The digits of an unsigned decimal: `s` without one leading `+`.
pub open spec fn unsigned_digits(s: Seq<char>) -> Seq<char> {
    if s.len() > 0 && s[0] == '+' {
        s.skip(1)
    } else {
        s
    }
}

/// `s` as an unsigned decimal the way `str::parse` reads unsigned integers:
/// an optional `+`, then one or more ASCII digits.
pub open spec fn parse_unsigned_spec(s: Seq<char>) -> Option<nat> {
    let d = unsigned_digits(s);
    if d.len() > 0 && forall|i: int| 0 <= i < d.len() ==> is_digit(#[trigger] d[i]) {
        Some(digits_value(d))
    } else {
        None
    }
}

/// Why `str::parse` refuses a string as an unsigned integer.
#[derive(Clone, Copy, Debug, PartialEq, Eq, Structural)]
pub enum IntErrorKind {
    /// The string is empty.
    Empty,
    /// A character is not a decimal digit (a lone sign counts as one).
    InvalidDigit,
    /// The number is larger than the type can hold.
    PosOverflow,
}

/// The description `str::parse` gives of each refusal.
pub open spec fn int_error_text(k: IntErrorKind) -> &'static str {
    match k {
        IntErrorKind::Empty => "cannot parse integer from empty string",
        IntErrorKind::InvalidDigit => "invalid digit found in string",
        IntErrorKind::PosOverflow => "number too large to fit in target type",
    }
}

impl IntErrorKind {
    /// A human-readable description of the refusal.
    pub fn message(&self) -> (m: &'static str)
        ensures
            m == int_error_text(*self),
    {
        match self {
            IntErrorKind::Empty => "cannot parse integer from empty string",
            IntErrorKind::InvalidDigit => "invalid digit found in string",
            IntErrorKind::PosOverflow => "number too large to fit in target type",
        }
    }
}

/// Reads the digits `d` from the left, refusing at the first character that
/// is not a digit or that would take the value past `max`.
pub open spec fn scan_digits(d: Seq<char>, max: nat) -> Result<nat, IntErrorKind>
    decreases d.len(),
{
    if d.len() == 0 {
        Ok(0)
    } else {
        match scan_digits(d.drop_last(), max) {
            Err(k) => Err(k),
            Ok(v) => if !is_digit(d.last()) {
                Err(IntErrorKind::InvalidDigit)
            } else if v * 10 + digit_value(d.last()) > max {
                Err(IntErrorKind::PosOverflow)
            } else {
                Ok(v * 10 + digit_value(d.last()))
            },
        }
    }
}

/// `s` read the way `str::parse` reads an unsigned integer type whose
/// largest value is `max`, with the refusal it reports.
pub open spec fn parse_unsigned_std(s: Seq<char>, max: nat) -> Result<nat, IntErrorKind> {
    if s.len() == 0 {
        Err(IntErrorKind::Empty)
    } else if s.len() == 1 && (s[0] == '+' || s[0] == '-') {
        Err(IntErrorKind::InvalidDigit)
    } else {
        scan_digits(unsigned_digits(s), max)
    }
}

/// The digits read without refusal are exactly the all-digit strings whose
/// value is at most `max`.
pub proof fn lemma_scan_digits(d: Seq<char>, max: nat)
    ensures
        scan_digits(d, max) is Ok <==> ((forall|i: int| 0 <= i < d.len() ==> is_digit(#[trigger] d[i]))
            && digits_value(d) <= max),
        scan_digits(d, max) matches Ok(v) ==> v == digits_value(d),
    decreases d.len(),
{
    if d.len() > 0 {
        let p = d.drop_last();
        lemma_scan_digits(p, max);
        let pv = digits_value(p);
        assert(pv * 10 + digit_value(d.last()) >= pv) by (nonlinear_arith);
        if forall|i: int| 0 <= i < d.len() ==> is_digit(#[trigger] d[i]) {
            assert forall|i: int| 0 <= i < p.len() implies is_digit(#[trigger] p[i]) by {
                assert(p[i] == d[i]);
            }
        }
        if scan_digits(d, max) is Ok {
            assert forall|i: int| 0 <= i < d.len() implies is_digit(#[trigger] d[i]) by {
                if i < p.len() {
                    assert(p[i] == d[i]);
                }
            }
        }
    }
}

/// Once a prefix of the digits is refused, the whole is refused the same way.
pub proof fn lemma_scan_digits_refused(d: Seq<char>, n: int, max: nat)
    requires
        0 <= n <= d.len(),
        scan_digits(d.take(n), max) is Err,
    ensures
        scan_digits(d, max) == scan_digits(d.take(n), max),
    decreases d.len() - n,
{
    if n < d.len() {
        assert(d.take(n + 1).drop_last() =~= d.take(n));
        lemma_scan_digits_refused(d, n + 1, max);
    } else {
        assert(d.take(n) =~= d);
    }
}

/// Reading one more digit.
proof fn lemma_scan_digits_next(d: Seq<char>, k: int, max: nat)
    requires
        0 <= k < d.len(),
    ensures
        scan_digits(d.take(k + 1), max) == (match scan_digits(d.take(k), max) {
            Err(e) => Err(e),
            Ok(v) => if !is_digit(d[k]) {
                Err(IntErrorKind::InvalidDigit)
            } else if v * 10 + digit_value(d[k]) > max {
                Err(IntErrorKind::PosOverflow)
            } else {
                Ok(v * 10 + digit_value(d[k]))
            },
        }),
{
    assert(d.take(k + 1).drop_last() =~= d.take(k));
    assert(d.take(k + 1).last() == d[k]);
}

/// A string read without refusal is read as `parse_unsigned_spec` reads it.
pub proof fn lemma_parse_unsigned_std(s: Seq<char>, max: nat)
    ensures
        parse_unsigned_std(s, max) is Ok <==> (parse_unsigned_spec(s) matches Some(v) && v <= max),
        parse_unsigned_std(s, max) matches Ok(v) ==> parse_unsigned_spec(s) == Some(v),
{
    let d = unsigned_digits(s);
    lemma_scan_digits(d, max);
    if s.len() == 1 && (s[0] == '+' || s[0] == '-') {
        if s[0] == '-' {
            assert(d[0] == '-');
            assert(!is_digit(d[0]));
        }
    }
}

/// Reads `s` as `str::parse` reads an unsigned integer type whose largest
/// value is `max`, reporting the refusal `str::parse` reports.
pub fn parse_unsigned_checked(s: &[char], max: u64) -> (r: Result<u64, IntErrorKind>)
    ensures
        r == (match parse_unsigned_std(s@, max as nat) {
            Ok(v) => Ok::<u64, IntErrorKind>(v as u64),
            Err(k) => Err(k),
        }),
{
    if s.len() == 0 {
        return Err(IntErrorKind::Empty);
    }
    if s.len() == 1 && (s[0] == '+' || s[0] == '-') {
        return Err(IntErrorKind::InvalidDigit);
    }
    let start: usize = if s[0] == '+' { 1 } else { 0 };
    let ghost d = unsigned_digits(s@);
    assert(d =~= s@.skip(start as int));
    assert(d.take(0) =~= Seq::<char>::empty());
    assert(parse_unsigned_std(s@, max as nat) == scan_digits(d, max as nat));
    let mut value: u64 = 0;
    let mut i: usize = start;
    while i < s.len()
        invariant
            start <= i <= s.len(),
            d =~= s@.skip(start as int),
            parse_unsigned_std(s@, max as nat) == scan_digits(d, max as nat),
            scan_digits(d.take(i - start), max as nat) == Ok::<nat, IntErrorKind>(value as nat),
            value <= max,
        decreases s.len() - i,
    {
        let c = s[i];
        let ghost k: int = i - start;
        proof {
            assert(d[k] == c);
            lemma_scan_digits_next(d, k, max as nat);
        }
        if !('0' <= c && c <= '9') {
            proof {
                lemma_scan_digits_refused(d, k + 1, max as nat);
            }
            return Err(IntErrorKind::InvalidDigit);
        }
        let digit = (c as u32 - '0' as u32) as u64;
        let next: u128 = value as u128 * 10 + digit as u128;
        if next > max as u128 {
            proof {
                lemma_scan_digits_refused(d, k + 1, max as nat);
            }
            return Err(IntErrorKind::PosOverflow);
        }
        value = next as u64;
        i += 1;
    }
    assert(d.take(s.len() - start) =~= d);
    Ok(value)
}

/// Reads `s` as an unsigned decimal no larger than `max`, as `str::parse`
/// reads an unsigned integer type whose largest value is `max`.
pub fn parse_unsigned(s: &[char], max: u64) -> (r: Option<u64>)
    ensures
        r == (match parse_unsigned_spec(s@) {
            Some(v) => if v <= max {
                Some(v as u64)
            } else {
                None
            },
            None => None,
        }),
{
    let start: usize = if s.len() > 0 && s[0] == '+' { 1 } else { 0 };
    let ghost d = unsigned_digits(s@);
    assert(d =~= s@.skip(start as int));
    if start >= s.len() {
        return None;
    }
    let mut value: u64 = 0;
    let mut overflow = false;
    let mut i: usize = start;
    while i < s.len()
        invariant
            start <= i <= s.len(),
            d == unsigned_digits(s@),
            d =~= s@.skip(start as int),
            forall|k: int| 0 <= k < i - start ==> is_digit(#[trigger] d[k]),
            !overflow ==> value == digits_value(d.take(i - start)),
            overflow ==> digits_value(d.take(i - start)) > max,
            value <= max,
        decreases s.len() - i,
    {
        let c = s[i];
        if !('0' <= c && c <= '9') {
            let ghost k: int = i - start;
            assert(0 <= k < d.len());
            assert(d[k] == c);
            assert(!is_digit(d[k]));
            assert(!(forall|j: int| 0 <= j < d.len() ==> is_digit(#[trigger] d[j])));
            assert(!(d.len() > 0 && forall|j: int| 0 <= j < d.len() ==> is_digit(#[trigger] d[j])));
            assert(d == unsigned_digits(s@));
            assert(parse_unsigned_spec(s@) == None::<nat>);
            return None;
        }
        let digit = (c as u32 - '0' as u32) as u64;
        assert(d.take(i + 1 - start).drop_last() =~= d.take(i - start));
        assert(d.take(i + 1 - start).last() == c);
        if !overflow {
            let next: u128 = value as u128 * 10 + digit as u128;
            if next > max as u128 {
                overflow = true;
            } else {
                value = next as u64;
            }
        } else {
            let ghost prev = digits_value(d.take(i - start));
            assert(prev * 10 + digit_value(c) >= prev) by (nonlinear_arith);
        }
        i += 1;
    }
    assert(d.take(s.len() - start) =~= d);
    if overflow {
        None
    } else {
        Some(value)
    }
}

/// The ASCII digit for a value below ten.
pub open spec fn digit_char(d: nat) -> char {
    (('0' as u32) + d) as char
}

/// The decimal representation of `v`, without leading zeros.
pub open spec fn decimal(v: nat) -> Seq<char>
    decreases v,
{
    if v < 10 {
        seq![digit_char(v)]
    } else {
        decimal(v / 10).push(digit_char(v % 10))
    }
}

/// Appends the decimal representation of `v`.
pub fn push_decimal(out: &mut Vec<char>, v: u64)
    ensures
        final(out)@ == old(out)@ + decimal(v as nat),
    decreases v,
{
    if v >= 10 {
        push_decimal(out, v / 10);
    }
    let d = (v % 10) as u8;
    let c = (48u8 + d) as char;
    out.push(c);
    assert(c == digit_char((v % 10) as nat));
    assert(out@ =~= old(out)@ + decimal(v as nat));
}

/// The digit character of a value below ten is a digit denoting it.
pub proof fn lemma_digit_char(x: nat)
    requires
        x < 10,
    ensures
        digit_value(digit_char(x)) == x,
        is_digit(digit_char(x)),
{
    let u: u32 = (('0' as u32) + x) as u32;
    assert((u as char) as u32 == u);
}

/// Every character of a decimal representation is an ASCII digit, and the
/// digits denote the number back.
pub proof fn lemma_decimal(v: nat)
    ensures
        decimal(v).len() > 0,
        forall|i: int| 0 <= i < decimal(v).len() ==> is_digit(#[trigger] decimal(v)[i]),
        digits_value(decimal(v)) == v,
    decreases v,
{
    lemma_digit_char(v % 10);
    if v < 10 {
        let d = decimal(v);
        assert(d.drop_last() =~= Seq::<char>::empty());
        assert(v % 10 == v);
        assert(digits_value(d) == digits_value(d.drop_last()) * 10 + digit_value(d.last()));
    }
    if v >= 10 {
        lemma_decimal(v / 10);
        let d = decimal(v);
        assert(d.drop_last() =~= decimal(v / 10));
        assert((v / 10) * 10 + v % 10 == v) by (nonlinear_arith);
        assert(d.last() == digit_char(v % 10));
        assert(digits_value(d) == digits_value(d.drop_last()) * 10 + digit_value(d.last()));
        assert forall|i: int| 0 <= i < d.len() implies is_digit(#[trigger] d[i]) by {
            if i < d.len() - 1 {
                assert(d[i] == decimal(v / 10)[i]);
            }
        }
    }
}

/// Reading a decimal representation gives the number back.
pub proof fn lemma_parse_decimal(v: nat)
    ensures
        parse_unsigned_spec(decimal(v)) == Some(v),
{
    lemma_decimal(v);
    assert(decimal(v)[0] != '+');
    assert(unsigned_digits(decimal(v)) == decimal(v));
}

/// Appending characters that are not white space extends the word in progress.
pub proof fn lemma_word_state_append(s: Seq<char>, t: Seq<char>)
    requires
        forall|i: int| 0 <= i < t.len() ==> !white_space(#[trigger] t[i]),
    ensures
        word_state(s + t) == (word_state(s).0, word_state(s).1 + t),
    decreases t.len(),
{
    if t.len() == 0 {
        assert(s + t =~= s);
        assert(word_state(s).1 + t =~= word_state(s).1);
    } else {
        lemma_word_state_append(s, t.drop_last());
        assert((s + t).drop_last() =~= s + t.drop_last());
        assert((s + t).last() == t.last());
        assert(word_state(s).1 + t.drop_last() + seq![t.last()] =~= word_state(s).1 + t);
    }
}

/// Appending characters other than a line feed extends the line in progress.
pub proof fn lemma_line_state_append(s: Seq<char>, t: Seq<char>)
    requires
        forall|i: int| 0 <= i < t.len() ==> #[trigger] t[i] != '\n',
    ensures
        line_state(s + t) == (line_state(s).0, line_state(s).1 + t),
    decreases t.len(),
{
    if t.len() == 0 {
        assert(s + t =~= s);
        assert(line_state(s).1 + t =~= line_state(s).1);
    } else {
        lemma_line_state_append(s, t.drop_last());
        assert((s + t).drop_last() =~= s + t.drop_last());
        assert((s + t).last() == t.last());
        assert(line_state(s).1 + t.drop_last() + seq![t.last()] =~= line_state(s).1 + t);
    }
}

/// Two decimals separated by one space are two words.
pub proof fn lemma_words_of_pair(a: nat, b: nat)
    ensures
        words(decimal(a) + seq![' '] + decimal(b)) == seq![decimal(a), decimal(b)],
{
    lemma_decimal(a);
    lemma_decimal(b);
    let da = decimal(a);
    let db = decimal(b);
    assert forall|i: int| 0 <= i < da.len() implies !white_space(#[trigger] da[i]) by {
        assert(is_digit(da[i]));
    }
    assert forall|i: int| 0 <= i < db.len() implies !white_space(#[trigger] db[i]) by {
        assert(is_digit(db[i]));
    }
    lemma_word_state_append(Seq::empty(), da);
    assert(Seq::<char>::empty() + da =~= da);
    assert(word_state(Seq::<char>::empty()) == (Seq::<Seq<char>>::empty(), Seq::<char>::empty()));
    assert(Seq::<char>::empty() + da =~= da);
    let s1 = da + seq![' '];
    assert(s1.drop_last() =~= da);
    assert(word_state(s1) == (seq![da], Seq::<char>::empty())) by {
        assert(Seq::<Seq<char>>::empty().push(da) =~= seq![da]);
    }
    lemma_word_state_append(s1, db);
    assert(Seq::<char>::empty() + db =~= db);
    assert(seq![da].push(db) =~= seq![da, db]);
}

/// Appends the characters of `t` to `s`.
pub fn push_str(s: &mut String, t: &str)
    ensures
        final(s)@ == old(s)@ + t@,
{
    let cs = chars_of(t);
    let mut i: usize = 0;
    while i < cs.len()
        invariant
            i <= cs@.len(),
            cs@ == t@,
            s@ == old(s)@ + cs@.take(i as int),
        decreases cs.len() - i,
    {
        push_char(s, cs[i]);
        i += 1;
        assert(s@ =~= old(s)@ + cs@.take(i as int));
    }
    assert(cs@.take(cs.len() as int) =~= cs@);
}

/// Appends the decimal representation of `v` to `s`.
pub fn push_decimal_str(s: &mut String, v: u64)
    ensures
        final(s)@ == old(s)@ + decimal(v as nat),
{
    let mut digits: Vec<char> = Vec::new();
    push_decimal(&mut digits, v);
    assert(digits@ =~= decimal(v as nat));
    let mut i: usize = 0;
    while i < digits.len()
        invariant
            i <= digits@.len(),
            digits@ == decimal(v as nat),
            s@ == old(s)@ + digits@.take(i as int),
        decreases digits.len() - i,
    {
        push_char(s, digits[i]);
        i += 1;
        assert(s@ =~= old(s)@ + digits@.take(i as int));
    }
    assert(digits@.take(digits.len() as int) =~= digits@);
}

/// Scanning `s` for pieces separated by `sep`: the pieces finished so
/// far, and the piece in progress.
pub open spec fn split_state(s: Seq<char>, sep: char) -> (Seq<Seq<char>>, Seq<char>)
    decreases s.len(),
{
    if s.len() == 0 {
        (Seq::empty(), Seq::empty())
    } else {
        let (done, cur) = split_state(s.drop_last(), sep);
        if s.last() == sep {
            (done.push(cur), Seq::empty())
        } else {
            (done, cur.push(s.last()))
        }
    }
}

/// The pieces of `s` between occurrences of `sep`, empty pieces included
/// (`str::split` with a character).
pub open spec fn split_on(s: Seq<char>, sep: char) -> Seq<Seq<char>> {
    let (done, cur) = split_state(s, sep);
    done.push(cur)
}

/// Scanning `s` for pieces separated by a carriage return and line feed.
pub open spec fn crlf_state(s: Seq<char>) -> (Seq<Seq<char>>, Seq<char>)
    decreases s.len(),
{
    if s.len() == 0 {
        (Seq::empty(), Seq::empty())
    } else {
        let (done, cur) = crlf_state(s.drop_last());
        if s.last() == '\n' && cur.len() > 0 && cur.last() == '\r' {
            (done.push(cur.drop_last()), Seq::empty())
        } else {
            (done, cur.push(s.last()))
        }
    }
}

/// The pieces of `s` between occurrences of `"\r\n"`, empty pieces
/// included (`str::split("\r\n")`).
pub open spec fn split_crlf(s: Seq<char>) -> Seq<Seq<char>> {
    let (done, cur) = crlf_state(s);
    done.push(cur)
}

/// The position of the first `c` in `s`.
pub open spec fn index_of(s: Seq<char>, c: char) -> Option<int>
    decreases s.len(),
{
    if s.len() == 0 {
        None
    } else if s[0] == c {
        Some(0)
    } else {
        match index_of(s.skip(1), c) {
            Some(i) => Some(i + 1),
            None => None,
        }
    }
}

/// `s` split around its first `c` (`str::split_once` with a character).
pub open spec fn split_once_spec(s: Seq<char>, c: char) -> Option<(Seq<char>, Seq<char>)> {
    match index_of(s, c) {
        Some(i) => Some((s.take(i), s.skip(i + 1))),
        None => None,
    }
}

/// `s` without the prefix `p`, when it starts with `p`.
pub open spec fn strip_prefix_spec(s: Seq<char>, p: Seq<char>) -> Option<Seq<char>> {
    if s.len() >= p.len() && s.take(p.len() as int) == p {
        Some(s.skip(p.len() as int))
    } else {
        None
    }
}

/// `s` without its leading white space.
pub open spec fn trim_start(s: Seq<char>) -> Seq<char>
    decreases s.len(),
{
    if s.len() > 0 && white_space(s[0]) {
        trim_start(s.skip(1))
    } else {
        s
    }
}

/// `s` without its trailing white space.
pub open spec fn trim_end(s: Seq<char>) -> Seq<char>
    decreases s.len(),
{
    if s.len() > 0 && white_space(s.last()) {
        trim_end(s.drop_last())
    } else {
        s
    }
}

/// `s` without leading and trailing white space (`str::trim`).
pub open spec fn trim(s: Seq<char>) -> Seq<char> {
    trim_end(trim_start(s))
}

/// `c` with ASCII upper-case letters made lower case.
pub open spec fn ascii_lower(c: char) -> char {
    if 'A' <= c && c <= 'Z' {
        ((c as u32) + 32) as char
    } else {
        c
    }
}

/// `a` and `b` are equal when ASCII letters are compared without case.
pub open spec fn eq_ignore_ascii_case(a: Seq<char>, b: Seq<char>) -> bool {
    a.len() == b.len() && forall|i: int| 0 <= i < a.len() ==> ascii_lower(#[trigger] a[i]) == ascii_lower(b[i])
}

/// The pieces of `s` between occurrences of `sep`.
pub fn split_char(s: &[char], sep: char) -> (out: Vec<Vec<char>>)
    ensures
        nested_view(out@) == split_on(s@, sep),
{
    let mut done: Vec<Vec<char>> = Vec::new();
    let mut cur: Vec<char> = Vec::new();
    let mut i: usize = 0;
    while i < s.len()
        invariant
            i <= s.len(),
            (nested_view(done@), cur@) == split_state(s@.take(i as int), sep),
        decreases s.len() - i,
    {
        assert(s@.take(i + 1).drop_last() =~= s@.take(i as int));
        let c = s[i];
        if c == sep {
            let ghost before = done@;
            let finished = cur;
            done.push(finished);
            assert(nested_view(done@) =~= nested_view(before).push(finished@));
            cur = Vec::new();
        } else {
            cur.push(c);
        }
        i += 1;
        assert(cur@ =~= split_state(s@.take(i as int), sep).1);
    }
    assert(s@.take(s.len() as int) =~= s@);
    let ghost before = done@;
    let finished = cur;
    done.push(finished);
    assert(nested_view(done@) =~= nested_view(before).push(finished@));
    done
}

/// The pieces of `s` between occurrences of `"\r\n"`.
pub fn split_crlf_exec(s: &[char]) -> (out: Vec<Vec<char>>)
    ensures
        nested_view(out@) == split_crlf(s@),
{
    let mut done: Vec<Vec<char>> = Vec::new();
    let mut cur: Vec<char> = Vec::new();
    let mut i: usize = 0;
    while i < s.len()
        invariant
            i <= s.len(),
            (nested_view(done@), cur@) == crlf_state(s@.take(i as int)),
        decreases s.len() - i,
    {
        assert(s@.take(i + 1).drop_last() =~= s@.take(i as int));
        let c = s[i];
        if c == '\n' && cur.len() > 0 && cur[cur.len() - 1] == '\r' {
            let ghost before = done@;
            let mut finished = cur;
            finished.pop();
            assert(finished@ =~= crlf_state(s@.take(i as int)).1.drop_last());
            done.push(finished);
            assert(nested_view(done@) =~= nested_view(before).push(finished@));
            cur = Vec::new();
        } else {
            cur.push(c);
        }
        i += 1;
        assert(cur@ =~= crlf_state(s@.take(i as int)).1);
    }
    assert(s@.take(s.len() as int) =~= s@);
    let ghost before = done@;
    let finished = cur;
    done.push(finished);
    assert(nested_view(done@) =~= nested_view(before).push(finished@));
    done
}

/// The first position of `c` in `s`, scanning from `k`.
proof fn lemma_index_of_from(s: Seq<char>, c: char, k: int)
    requires
        0 <= k <= s.len(),
        forall|j: int| 0 <= j < k ==> s[j] != c,
    ensures
        index_of(s, c) == match index_of(s.skip(k), c) {
            Some(i) => Some(i + k),
            None => None::<int>,
        },
    decreases k,
{
    if k > 0 {
        assert(s.skip(1).skip(k - 1) =~= s.skip(k));
        lemma_index_of_from(s.skip(1), c, k - 1);
    } else {
        assert(s.skip(0) =~= s);
    }
}

/// `s` split around its first `c`.
pub fn split_once(s: &[char], c: char) -> (r: Option<(Vec<char>, Vec<char>)>)
    ensures
        match r {
            Some((a, b)) => split_once_spec(s@, c) == Some((a@, b@)),
            None => split_once_spec(s@, c) is None,
        },
{
    let mut i: usize = 0;
    while i < s.len()
        invariant
            i <= s.len(),
            forall|j: int| 0 <= j < i ==> s@[j] != c,
        decreases s.len() - i,
    {
        if s[i] == c {
            proof {
                lemma_index_of_from(s@, c, i as int);
            }
            let mut a: Vec<char> = Vec::new();
            let mut k: usize = 0;
            while k < i
                invariant
                    k <= i < s.len(),
                    a@ == s@.take(k as int),
                decreases i - k,
            {
                a.push(s[k]);
                k += 1;
                assert(a@ =~= s@.take(k as int));
            }
            let mut b: Vec<char> = Vec::new();
            let mut k: usize = i + 1;
            while k < s.len()
                invariant
                    i + 1 <= k <= s.len(),
                    b@ == s@.subrange(i + 1, k as int),
                decreases s.len() - k,
            {
                b.push(s[k]);
                k += 1;
                assert(b@ =~= s@.subrange(i + 1, k as int));
            }
            assert(b@ =~= s@.skip(i + 1));
            return Some((a, b));
        }
        i += 1;
    }
    proof {
        lemma_index_of_from(s@, c, s@.len() as int);
        assert(s@.skip(s@.len() as int) =~= Seq::<char>::empty());
    }
    None
}

/// The characters of `s` from position `start` on.
pub fn chars_from(s: &[char], start: usize) -> (out: Vec<char>)
    requires
        start <= s@.len(),
    ensures
        out@ == s@.skip(start as int),
{
    let mut out: Vec<char> = Vec::new();
    let mut k: usize = start;
    while k < s.len()
        invariant
            start <= k <= s.len(),
            out@ == s@.subrange(start as int, k as int),
        decreases s.len() - k,
    {
        out.push(s[k]);
        k += 1;
        assert(out@ =~= s@.subrange(start as int, k as int));
    }
    assert(out@ =~= s@.skip(start as int));
    out
}

/// Whether `s` holds exactly the characters of `t`.
pub fn eq_str(s: &[char], t: &str) -> (r: bool)
    ensures
        r == (s@ == t@),
{
    let tc = chars_of(t);
    if s.len() != tc.len() {
        return false;
    }
    let mut i: usize = 0;
    while i < s.len()
        invariant
            i <= s@.len(),
            s@.len() == tc@.len(),
            tc@ == t@,
            forall|j: int| 0 <= j < i ==> s@[j] == tc@[j],
        decreases s.len() - i,
    {
        if s[i] != tc[i] {
            return false;
        }
        i += 1;
    }
    assert(s@ =~= t@);
    true
}

/// `s` without the prefix `p`, when it starts with `p`.
pub fn strip_prefix(s: &[char], p: &str) -> (r: Option<Vec<char>>)
    ensures
        match r {
            Some(rest) => strip_prefix_spec(s@, p@) == Some(rest@),
            None => strip_prefix_spec(s@, p@) is None,
        },
{
    let pc = chars_of(p);
    if s.len() < pc.len() {
        return None;
    }
    let mut i: usize = 0;
    while i < pc.len()
        invariant
            i <= pc@.len() <= s@.len(),
            pc@ == p@,
            forall|j: int| 0 <= j < i ==> s@[j] == pc@[j],
        decreases pc.len() - i,
    {
        if s[i] != pc[i] {
            assert(s@.take(pc@.len() as int)[i as int] != p@[i as int]);
            return None;
        }
        i += 1;
    }
    assert(s@.take(pc@.len() as int) =~= p@);
    Some(chars_from(s, pc.len()))
}

/// Lower-cases an ASCII upper-case letter.
pub fn to_ascii_lower(c: char) -> (r: char)
    ensures
        r == ascii_lower(c),
{
    if 'A' <= c && c <= 'Z' {
        let u = (c as u32 + 32) as u8;
        (u as char)
    } else {
        c
    }
}

/// Whether `s` and `t` are equal when ASCII letters are compared without case.
pub fn eq_ignore_case(s: &[char], t: &str) -> (r: bool)
    ensures
        r == eq_ignore_ascii_case(s@, t@),
{
    let tc = chars_of(t);
    if s.len() != tc.len() {
        return false;
    }
    let mut i: usize = 0;
    while i < s.len()
        invariant
            i <= s@.len(),
            s@.len() == tc@.len(),
            tc@ == t@,
            forall|j: int| 0 <= j < i ==> ascii_lower(#[trigger] s@[j]) == ascii_lower(tc@[j]),
        decreases s.len() - i,
    {
        if to_ascii_lower(s[i]) != to_ascii_lower(tc[i]) {
            return false;
        }
        i += 1;
    }
    true
}

/// `s` without leading and trailing white space.
pub fn trim_chars(s: &[char]) -> (out: Vec<char>)
    ensures
        out@ == trim(s@),
{
    let mut start: usize = 0;
    assert(s@.skip(0) =~= s@);
    while start < s.len() && is_white_space(s[start])
        invariant
            start <= s@.len(),
            trim_start(s@) == trim_start(s@.skip(start as int)),
        decreases s.len() - start,
    {
        assert(s@.skip(start as int).skip(1) =~= s@.skip(start + 1));
        start += 1;
    }
    let rest = chars_from(s, start);
    assert(trim_start(s@) == rest@);
    let mut end: usize = rest.len();
    assert(rest@.take(end as int) =~= rest@);
    while end > 0 && is_white_space(rest[end - 1])
        invariant
            end <= rest@.len(),
            trim_end(rest@) == trim_end(rest@.take(end as int)),
        decreases end,
    {
        assert(rest@.take(end as int).drop_last() =~= rest@.take(end - 1));
        end -= 1;
    }
    let mut out: Vec<char> = Vec::new();
    let mut k: usize = 0;
    while k < end
        invariant
            k <= end <= rest@.len(),
            out@ == rest@.take(k as int),
        decreases end - k,
    {
        out.push(rest[k]);
        k += 1;
        assert(out@ =~= rest@.take(k as int));
    }
    out
}

} // verus!
