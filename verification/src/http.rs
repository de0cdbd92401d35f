//! The strict request boundary of the teaching server: a single bounded
//! HTTP/1.1 `GET /generate` request, percent decoding of the prompt, and
//! JSON escaping of the reply.
use vstd::prelude::*;
use vstd::utf8::{decode_utf8, encode_utf8, is_ascii_chars, valid_utf8};
use crate::text::{
    chars_of, eq_ignore_ascii_case, eq_ignore_case, eq_str, nested_view, parse_unsigned,
    parse_unsigned_spec, push_char, split_char, split_crlf, split_crlf_exec, split_on, split_once,
    split_once_spec, string_from_chars, strip_prefix, strip_prefix_spec, trim, trim_chars,
};

verus! {

/// `b` is an ASCII hexadecimal digit.
pub open spec fn is_hex(b: u8) -> bool {
    (0x30 <= b <= 0x39) || (0x41 <= b <= 0x46) || (0x61 <= b <= 0x66)
}

/// The value of an ASCII hexadecimal digit.
pub open spec fn hex_value(b: u8) -> u8 {
    if b <= 0x39 {
        (b - 0x30) as u8
    } else if b <= 0x46 {
        (b - 0x41 + 10) as u8
    } else {
        (b - 0x61 + 10) as u8
    }
}

/// The byte that the two bytes after a `%` denote, read as `u8::from_str_radix`
/// reads them in base 16: two hex digits, or `+` and one hex digit.
pub open spec fn escape_value(a: u8, b: u8) -> Option<u8> {
    if is_hex(a) && is_hex(b) {
        Some((hex_value(a) * 16 + hex_value(b)) as u8)
    } else if a == 0x2b && is_hex(b) {
        Some(hex_value(b))
    } else {
        None
    }
}

/// Percent decoding of `b` from position `i` on: `+` stands for a space,
/// `%` and two more bytes for the byte they denote, any other byte for itself.
pub open spec fn unescape_from(b: Seq<u8>, i: int) -> Result<Seq<u8>, &'static str>
    decreases b.len() - i,
{
    if i < 0 || i >= b.len() {
        Ok(Seq::empty())
    } else if b[i] == 0x2b {
        match unescape_from(b, i + 1) {
            Ok(rest) => Ok(seq![0x20u8] + rest),
            Err(e) => Err(e),
        }
    } else if b[i] == 0x25 {
        if i + 2 < b.len() {
            match escape_value(b[i + 1], b[i + 2]) {
                Some(x) => match unescape_from(b, i + 3) {
                    Ok(rest) => Ok(seq![x] + rest),
                    Err(e) => Err(e),
                },
                None => Err("bad escape"),
            }
        } else {
            Err("bad escape")
        }
    } else {
        match unescape_from(b, i + 1) {
            Ok(rest) => Ok(seq![b[i]] + rest),
            Err(e) => Err(e),
        }
    }
}

/// The text a percent-encoded query value stands for: its UTF-8 bytes
/// unescaped, then read as UTF-8.
pub open spec fn percent_decode_spec(value: Seq<char>) -> Result<Seq<char>, &'static str> {
    match unescape_from(encode_utf8(value), 0) {
        Err(e) => Err(e),
        Ok(bytes) => if valid_utf8(bytes) {
            Ok(decode_utf8(bytes))
        } else {
            Err("prompt is not UTF-8")
        },
    }
}

/// `String::from_utf8`: succeeds exactly on valid UTF-8, with the
/// characters the bytes encode.
#[verifier::external_body]
fn string_from_utf8(bytes: Vec<u8>) -> (r: Option<String>)
    ensures
        r is Some <==> valid_utf8(bytes@),
        r matches Some(s) ==> s@ == decode_utf8(bytes@),
{
    String::from_utf8(bytes).ok()
}

/// Whether `b` is an ASCII hexadecimal digit.
fn hex_digit(b: u8) -> (r: Option<u8>)
    ensures
        r is Some <==> is_hex(b),
        r matches Some(v) ==> v == hex_value(b),
{
    if 0x30 <= b && b <= 0x39 {
        Some(b - 0x30)
    } else if 0x41 <= b && b <= 0x46 {
        Some(b - 0x41 + 10)
    } else if 0x61 <= b && b <= 0x66 {
        Some(b - 0x61 + 10)
    } else {
        None
    }
}

/// Decodes a percent-encoded query value: `+` is a space and `%XY` the
/// byte with hex digits `XY`; the result must be UTF-8.
pub fn percent_decode(value: &str) -> (r: Result<String, &'static str>)
    ensures
        match r {
            Ok(s) => percent_decode_spec(value@) == Ok::<Seq<char>, &'static str>(s@),
            Err(e) => percent_decode_spec(value@) == Err::<Seq<char>, &'static str>(e),
        },
{
    let bytes = value.as_bytes();
    let ghost b = bytes@;
    let mut output: Vec<u8> = Vec::new();
    let mut i: usize = 0;
    while i < bytes.len()
        invariant
            i <= bytes@.len(),
            b == bytes@,
            b == encode_utf8(value@),
            unescape_from(b, 0) == match unescape_from(b, i as int) {
                Ok(rest) => Ok::<Seq<u8>, &'static str>(output@ + rest),
                Err(e) => Err::<Seq<u8>, &'static str>(e),
            },
        decreases bytes.len() - i,
    {
        let ghost before = output@;
        if bytes[i] == 0x2b {
            output.push(0x20);
            proof {
                match unescape_from(b, i + 1) {
                    Ok(rest) => {
                        assert(before + (seq![0x20u8] + rest) =~= output@ + rest);
                    },
                    Err(e) => {},
                }
            }
            i += 1;
        } else if bytes[i] == 0x25 {
            if bytes.len() - i > 2 {
                let hi = hex_digit(bytes[i + 1]);
                let lo = hex_digit(bytes[i + 2]);
                let x: u8 = match (hi, lo) {
                    (Some(h), Some(l)) => h * 16 + l,
                    (None, Some(l)) => {
                        if bytes[i + 1] == 0x2b {
                            l
                        } else {
                            return Err("bad escape");
                        }
                    },
                    _ => {
                        return Err("bad escape");
                    },
                };
                output.push(x);
                proof {
                    match unescape_from(b, i + 3) {
                        Ok(rest) => {
                            assert(before + (seq![x] + rest) =~= output@ + rest);
                        },
                        Err(e) => {},
                    }
                }
                i += 3;
            } else {
                return Err("bad escape");
            }
        } else {
            let c = bytes[i];
            output.push(c);
            proof {
                match unescape_from(b, i + 1) {
                    Ok(rest) => {
                        assert(before + (seq![c] + rest) =~= output@ + rest);
                    },
                    Err(e) => {},
                }
            }
            i += 1;
        }
    }
    assert(output@ + Seq::<u8>::empty() =~= output@);
    let ghost out = output@;
    match string_from_utf8(output) {
        Some(s) => Ok(s),
        None => {
            assert(!valid_utf8(out));
            Err("prompt is not UTF-8")
        },
    }
}

/// A character allowed in a header name: an ASCII letter or digit, or `-`.
pub open spec fn header_name_char(c: char) -> bool {
    ('0' <= c && c <= '9') || ('A' <= c && c <= 'Z') || ('a' <= c && c <= 'z') || c == '-'
}

/// One header line, given whether a `Content-Length` header was already
/// seen: the new value of that flag, or why the request is refused.
pub open spec fn header_step_spec(line: Seq<char>, seen: bool) -> Result<bool, &'static str> {
    match split_once_spec(line, ':') {
        None => Err("malformed header"),
        Some((key, value)) => if key.len() == 0 || !(forall|i: int|
            0 <= i < key.len() ==> header_name_char(#[trigger] key[i])) {
            Err("invalid header name")
        } else if eq_ignore_ascii_case(key, "transfer-encoding"@) {
            Err("body transfer encoding is unsupported")
        } else if eq_ignore_ascii_case(key, "content-length"@) {
            if seen || trim(value) != "0"@ {
                Err("GET must have no body and one content length")
            } else {
                Ok(true)
            }
        } else {
            Ok(seen)
        },
    }
}

/// The header lines from `lines[i]` up to the first empty line, checked in order.
pub open spec fn headers_from(lines: Seq<Seq<char>>, i: int, seen: bool) -> Result<(), &'static str>
    decreases lines.len() - i,
{
    if i < 0 || i >= lines.len() || lines[i].len() == 0 {
        Ok(())
    } else {
        match header_step_spec(lines[i], seen) {
            Err(e) => Err(e),
            Ok(now) => headers_from(lines, i + 1, now),
        }
    }
}

/// One `key=value` field of the query, given the prompt and token count
/// read so far.
pub open spec fn field_step_spec(field: Seq<char>, prompt: Option<Seq<char>>, tokens: Option<nat>)
    -> Result<(Option<Seq<char>>, Option<nat>), &'static str>
{
    match split_once_spec(field, '=') {
        None => Err("malformed query"),
        Some((key, value)) => if key == "prompt"@ && prompt is None {
            match percent_decode_spec(value) {
                Ok(text) => Ok((Some(text), tokens)),
                Err(e) => Err(e),
            }
        } else if key == "tokens"@ && tokens is None {
            match parse_unsigned_spec(value) {
                Some(n) => if n <= usize::MAX {
                    Ok((prompt, Some(n)))
                } else {
                    Err("invalid token count")
                },
                None => Err("invalid token count"),
            }
        } else {
            Err("unknown or duplicate query field")
        },
    }
}

/// The query fields from `fields[i]` on, read in order.
pub open spec fn fields_from(
    fields: Seq<Seq<char>>,
    i: int,
    prompt: Option<Seq<char>>,
    tokens: Option<nat>,
) -> Result<(Option<Seq<char>>, Option<nat>), &'static str>
    decreases fields.len() - i,
{
    if i < 0 || i >= fields.len() {
        Ok((prompt, tokens))
    } else {
        match field_step_spec(fields[i], prompt, tokens) {
            Err(e) => Err(e),
            Ok((p, t)) => fields_from(fields, i + 1, p, t),
        }
    }
}

/// The bytes of a complete request end with an empty line.
pub open spec fn ends_with_blank_line(b: Seq<u8>) -> bool {
    b.len() >= 4 && b.subrange(b.len() - 4, b.len() as int) == seq![13u8, 10u8, 13u8, 10u8]
}

/// A prompt of 1 to 256 ASCII bytes and at most 64 tokens to generate.
pub open spec fn prompt_allowed(prompt: Seq<char>, tokens: nat) -> bool {
    prompt.len() > 0 && encode_utf8(prompt).len() <= 256 && is_ascii_chars(prompt) && tokens <= 64
}

/// What the server makes of a request: the prompt and the number of tokens
/// to generate (24 unless the query says otherwise), or why it is refused.
pub open spec fn parse_request_spec(request: Seq<char>) -> Result<(Seq<char>, nat), &'static str> {
    let bytes = encode_utf8(request);
    if bytes.len() > 4096 || !ends_with_blank_line(bytes) {
        Err("incomplete or oversized request")
    } else {
        let lines = split_crlf(request);
        let parts = split_on(lines[0], ' ');
        if parts.len() != 3 || parts[0] != "GET"@ || parts[2] != "HTTP/1.1"@ {
            Err("expected HTTP/1.1 GET request")
        } else {
            match headers_from(lines, 1, false) {
                Err(e) => Err(e),
                Ok(_) => match strip_prefix_spec(parts[1], "/generate?"@) {
                    None => Err("unknown endpoint"),
                    Some(query) => match fields_from(split_on(query, '&'), 0, None, None) {
                        Err(e) => Err(e),
                        Ok((prompt, tokens)) => match prompt {
                            None => Err("prompt is required"),
                            Some(p) => {
                                let n = match tokens {
                                    Some(n) => n,
                                    None => 24,
                                };
                                if prompt_allowed(p, n) {
                                    Ok((p, n))
                                } else {
                                    Err("prompt must be 1..256 ASCII bytes and tokens at most 64")
                                }
                            },
                        },
                    },
                },
            }
        }
    }
}

/// Whether every character of `key` may stand in a header name.
fn all_header_chars(key: &[char]) -> (r: bool)
    ensures
        r == (forall|i: int| 0 <= i < key@.len() ==> header_name_char(#[trigger] key@[i])),
{
    let mut i: usize = 0;
    while i < key.len()
        invariant
            i <= key@.len(),
            forall|j: int| 0 <= j < i ==> header_name_char(#[trigger] key@[j]),
        decreases key.len() - i,
    {
        let c = key[i];
        if !(('0' <= c && c <= '9') || ('A' <= c && c <= 'Z') || ('a' <= c && c <= 'z') || c == '-') {
            assert(!header_name_char(key@[i as int]));
            return false;
        }
        i += 1;
    }
    true
}

/// Checks one header line.
fn header_step(line: &[char], seen: bool) -> (r: Result<bool, &'static str>)
    ensures
        r == header_step_spec(line@, seen),
{
    match split_once(line, ':') {
        None => Err("malformed header"),
        Some((key, value)) => {
            if key.len() == 0 || !all_header_chars(&key) {
                Err("invalid header name")
            } else if eq_ignore_case(&key, "transfer-encoding") {
                Err("body transfer encoding is unsupported")
            } else if eq_ignore_case(&key, "content-length") {
                let trimmed = trim_chars(&value);
                if seen || !eq_str(&trimmed, "0") {
                    Err("GET must have no body and one content length")
                } else {
                    Ok(true)
                }
            } else {
                Ok(seen)
            }
        },
    }
}

/// The view of an optional string.
pub open spec fn opt_text(p: Option<String>) -> Option<Seq<char>> {
    match p {
        Some(s) => Some(s@),
        None => None,
    }
}

/// An optional count as a natural number.
pub open spec fn opt_count(t: Option<usize>) -> Option<nat> {
    match t {
        Some(n) => Some(n as nat),
        None => None,
    }
}

/// Reads one query field.
fn field_step(field: &[char], prompt: Option<String>, tokens: Option<usize>) -> (r: Result<(Option<String>, Option<usize>), &'static str>)
    ensures
        match r {
            Ok((p, t)) => field_step_spec(field@, opt_text(prompt), opt_count(tokens))
                == Ok::<(Option<Seq<char>>, Option<nat>), &'static str>((opt_text(p), opt_count(t))),
            Err(e) => field_step_spec(field@, opt_text(prompt), opt_count(tokens))
                == Err::<(Option<Seq<char>>, Option<nat>), &'static str>(e),
        },
{
    match split_once(field, '=') {
        None => Err("malformed query"),
        Some((key, value)) => {
            if eq_str(&key, "prompt") && prompt.is_none() {
                let text = string_from_chars(&value);
                match percent_decode(text.as_str()) {
                    Ok(decoded) => Ok((Some(decoded), tokens)),
                    Err(e) => Err(e),
                }
            } else if eq_str(&key, "tokens") && tokens.is_none() {
                match parse_unsigned(&value, usize::MAX as u64) {
                    Some(n) => Ok((prompt, Some(n as usize))),
                    None => Err("invalid token count"),
                }
            } else {
                Err("unknown or duplicate query field")
            }
        },
    }
}

/// Parses one `GET /generate?prompt=..&tokens=..` request, header and all,
/// into the prompt and the number of tokens to generate.
pub fn parse_request(request: &str) -> (r: Result<(String, usize), &'static str>)
    ensures
        match r {
            Ok((p, n)) => parse_request_spec(request@) == Ok::<(Seq<char>, nat), &'static str>(
                (p@, n as nat),
            ),
            Err(e) => parse_request_spec(request@) == Err::<(Seq<char>, nat), &'static str>(e),
        },
{
    let bytes = request.as_bytes();
    let n = bytes.len();
    if n > 4096 || !(n >= 4 && bytes[n - 4] == 13 && bytes[n - 3] == 10 && bytes[n - 2] == 13
        && bytes[n - 1] == 10) {
        proof {
            if n >= 4 && n <= 4096 {
                let b = bytes@;
                assert(b.subrange(b.len() - 4, b.len() as int)[0] == b[n - 4]);
                assert(b.subrange(b.len() - 4, b.len() as int)[1] == b[n - 3]);
                assert(b.subrange(b.len() - 4, b.len() as int)[2] == b[n - 2]);
                assert(b.subrange(b.len() - 4, b.len() as int)[3] == b[n - 1]);
            }
        }
        return Err("incomplete or oversized request");
    }
    assert(bytes@.subrange(n - 4, n as int) =~= seq![13u8, 10u8, 13u8, 10u8]);
    let chars = chars_of(request);
    let lines = split_crlf_exec(&chars);
    let ghost ls = split_crlf(request@);
    assert(nested_view(lines@) == ls);
    assert(lines@.len() > 0);
    assert(lines@[0]@ == ls[0]);
    let parts = split_char(&lines[0], ' ');
    let ghost ps = split_on(ls[0], ' ');
    if parts.len() != 3 || !eq_str(&parts[0], "GET") || !eq_str(&parts[2], "HTTP/1.1") {
        proof {
            if parts@.len() == 3 {
                assert(parts@[0]@ == ps[0]);
                assert(parts@[2]@ == ps[2]);
            }
        }
        return Err("expected HTTP/1.1 GET request");
    }
    assert(parts@[0]@ == ps[0]);
    assert(parts@[1]@ == ps[1]);
    assert(parts@[2]@ == ps[2]);
    let mut seen = false;
    let mut i: usize = 1;
    while i < lines.len() && lines[i].len() > 0
        invariant
            1 <= i <= lines@.len(),
            nested_view(lines@) == ls,
            ls == split_crlf(request@),
            ps == split_on(ls[0], ' '),
            encode_utf8(request@).len() <= 4096,
            ends_with_blank_line(encode_utf8(request@)),
            ps.len() == 3 && ps[0] == "GET"@ && ps[2] == "HTTP/1.1"@,
            headers_from(ls, 1, false) == headers_from(ls, i as int, seen),
        decreases lines.len() - i,
    {
        assert(lines@[i as int]@ == ls[i as int]);
        match header_step(&lines[i], seen) {
            Err(e) => {
                return Err(e);
            },
            Ok(now) => {
                seen = now;
            },
        }
        i += 1;
    }
    proof {
        if i < lines@.len() {
            assert(lines@[i as int]@ == ls[i as int]);
        }
    }
    let query = match strip_prefix(&parts[1], "/generate?") {
        None => {
            return Err("unknown endpoint");
        },
        Some(q) => q,
    };
    let fields = split_char(&query, '&');
    let ghost fs = split_on(query@, '&');
    let mut prompt: Option<String> = None;
    let mut tokens: Option<usize> = None;
    let mut k: usize = 0;
    while k < fields.len()
        invariant
            k <= fields@.len(),
            nested_view(fields@) == fs,
            ls == split_crlf(request@),
            ps == split_on(ls[0], ' '),
            encode_utf8(request@).len() <= 4096,
            ends_with_blank_line(encode_utf8(request@)),
            ps.len() == 3 && ps[0] == "GET"@ && ps[2] == "HTTP/1.1"@,
            headers_from(ls, 1, false) is Ok,
            strip_prefix_spec(ps[1], "/generate?"@) == Some(query@),
            fs == split_on(query@, '&'),
            fields_from(fs, 0, None, None) == fields_from(fs, k as int, opt_text(prompt), opt_count(tokens)),
        decreases fields.len() - k,
    {
        assert(fields@[k as int]@ == fs[k as int]);
        match field_step(&fields[k], prompt, tokens) {
            Err(e) => {
                return Err(e);
            },
            Ok((p, t)) => {
                prompt = p;
                tokens = t;
            },
        }
        k += 1;
    }
    let text = match prompt {
        None => {
            return Err("prompt is required");
        },
        Some(p) => p,
    };
    let count: usize = match tokens {
        Some(t) => t,
        None => 24,
    };
    let view = text.as_str();
    if view.is_empty() || view.as_bytes().len() > 256 || !view.is_ascii() || count > 64 {
        return Err("prompt must be 1..256 ASCII bytes and tokens at most 64");
    }
    Ok((text, count))
}

/// `c` is a control character (Unicode general category `Cc`), as
/// `char::is_control` decides.
pub open spec fn is_control(c: char) -> bool {
    (c as u32) < 0x20 || (0x7f <= (c as u32) && (c as u32) < 0xa0)
}

/// How one character appears inside a JSON string: backslash, quote and
/// line feed escaped, other control characters replaced by `?`.
pub open spec fn escape_char(c: char) -> Seq<char> {
    if c == '\\' {
        seq!['\\', '\\']
    } else if c == '"' {
        seq!['\\', '"']
    } else if c == '\n' {
        seq!['\\', 'n']
    } else if is_control(c) {
        seq!['?']
    } else {
        seq![c]
    }
}

/// `s` made safe to stand between the quotes of a JSON string.
pub open spec fn json_escape_spec(s: Seq<char>) -> Seq<char>
    decreases s.len(),
{
    if s.len() == 0 {
        Seq::empty()
    } else {
        json_escape_spec(s.drop_last()) + escape_char(s.last())
    }
}

/// Escapes `value` for a JSON string.
pub fn json_escape(value: &str) -> (out: String)
    ensures
        out@ == json_escape_spec(value@),
{
    let cs = chars_of(value);
    let mut out = String::new();
    let mut i: usize = 0;
    while i < cs.len()
        invariant
            i <= cs@.len(),
            cs@ == value@,
            out@ == json_escape_spec(cs@.take(i as int)),
        decreases cs.len() - i,
    {
        let c = cs[i];
        let code = c as u32;
        if c == '\\' {
            push_char(&mut out, '\\');
            push_char(&mut out, '\\');
        } else if c == '"' {
            push_char(&mut out, '\\');
            push_char(&mut out, '"');
        } else if c == '\n' {
            push_char(&mut out, '\\');
            push_char(&mut out, 'n');
        } else if code < 0x20 || (0x7f <= code && code < 0xa0) {
            push_char(&mut out, '?');
        } else {
            push_char(&mut out, c);
        }
        assert(cs@.take(i + 1).drop_last() =~= cs@.take(i as int));
        i += 1;
        assert(out@ =~= json_escape_spec(cs@.take(i as int)));
    }
    assert(cs@.take(cs@.len() as int) =~= cs@);
    out
}

/// Escaped text has no control characters and no quote without a
/// backslash before it, so it can stand between the quotes of a JSON string.
pub proof fn lemma_json_escape_safe(s: Seq<char>)
    ensures
        forall|i: int| 0 <= i < json_escape_spec(s).len() ==> !is_control(#[trigger] json_escape_spec(s)[i]),
        forall|i: int|
            0 <= i < json_escape_spec(s).len() && #[trigger] json_escape_spec(s)[i] == '"' ==> i > 0
                && json_escape_spec(s)[i - 1] == '\\',
    decreases s.len(),
{
    if s.len() > 0 {
        lemma_json_escape_safe(s.drop_last());
        let front = json_escape_spec(s.drop_last());
        let e = escape_char(s.last());
        assert(json_escape_spec(s) == front + e);
        assert forall|i: int| 0 <= i < json_escape_spec(s).len() implies !is_control(
            #[trigger] json_escape_spec(s)[i],
        ) by {
            if i >= front.len() {
                assert(json_escape_spec(s)[i] == e[i - front.len()]);
            } else {
                assert(json_escape_spec(s)[i] == front[i]);
            }
        }
        assert forall|i: int|
            0 <= i < json_escape_spec(s).len() && #[trigger] json_escape_spec(s)[i] == '"' implies i > 0
                && json_escape_spec(s)[i - 1] == '\\' by {
            if i >= front.len() {
                assert(json_escape_spec(s)[i] == e[i - front.len()]);
                if i - front.len() == 1 {
                    assert(json_escape_spec(s)[i - 1] == e[0]);
                }
            } else {
                assert(json_escape_spec(s)[i] == front[i]);
                assert(json_escape_spec(s)[i - 1] == front[i - 1]);
            }
        }
    }
}


/// The query field `f` names the field `key`.
pub open spec fn names_field(f: Seq<char>, key: Seq<char>) -> bool {
    split_once_spec(f, '=') matches Some((k, v)) && k == key
}

/// The field `key` has already been read into the prompt or count so far.
pub open spec fn already_read(key: Seq<char>, prompt: Option<Seq<char>>, tokens: Option<nat>) -> bool {
    (key == "prompt"@ && prompt is Some) || (key == "tokens"@ && tokens is Some)
}

/// Reading one field never forgets a field already read, and remembers the
/// field it reads; a field read a second time is refused.
proof fn lemma_field_step_remembers(
    f: Seq<char>,
    key: Seq<char>,
    prompt: Option<Seq<char>>,
    tokens: Option<nat>,
)
    requires
        key == "prompt"@ || key == "tokens"@,
    ensures
        field_step_spec(f, prompt, tokens) matches Ok((p, t)) ==> ((already_read(key, prompt, tokens)
            || names_field(f, key)) ==> already_read(key, p, t)),
        already_read(key, prompt, tokens) && names_field(f, key) ==> field_step_spec(f, prompt, tokens)
            == Err::<(Option<Seq<char>>, Option<nat>), &'static str>("unknown or duplicate query field"),
{
    reveal_strlit("prompt");
    reveal_strlit("tokens");
    assert("prompt"@[0] != "tokens"@[0]);
}

/// Once the field `key` has been read, or is named by a field before
/// `fields[j]`, a field `fields[j]` naming `key` again makes the query
/// refused; when every field before `fields[j]` is accepted the refusal is
/// "unknown or duplicate query field".
proof fn lemma_fields_repeat_refused(
    fields: Seq<Seq<char>>,
    m: int,
    j: int,
    key: Seq<char>,
    prompt: Option<Seq<char>>,
    tokens: Option<nat>,
)
    requires
        key == "prompt"@ || key == "tokens"@,
        0 <= m <= j < fields.len(),
        names_field(fields[j], key),
        already_read(key, prompt, tokens) || exists|i: int| m <= i < j && #[trigger] names_field(fields[i], key),
    ensures
        fields_from(fields, m, prompt, tokens) is Err,
        fields_from(fields.take(j), m, prompt, tokens) is Ok ==> fields_from(fields, m, prompt, tokens)
            == Err::<(Option<Seq<char>>, Option<nat>), &'static str>("unknown or duplicate query field"),
    decreases j - m,
{
    let pre = fields.take(j);
    lemma_field_step_remembers(fields[m], key, prompt, tokens);
    if m == j {
        assert(fields_from(pre, m, prompt, tokens) == Ok::<(Option<Seq<char>>, Option<nat>), &'static str>(
            (prompt, tokens),
        ));
    } else {
        assert(pre[m] == fields[m]);
        match field_step_spec(fields[m], prompt, tokens) {
            Err(e) => {},
            Ok((p, t)) => {
                if !already_read(key, p, t) {
                    let i = choose|i: int| m <= i < j && #[trigger] names_field(fields[i], key);
                    assert(i != m);
                    assert(m + 1 <= i < j && names_field(fields[i], key));
                }
                lemma_fields_repeat_refused(fields, m + 1, j, key, p, t);
            },
        }
    }
}

/// A query that names the prompt or the token count twice is refused, and
/// when every field before the second naming is accepted it is refused with
/// "unknown or duplicate query field".
pub proof fn lemma_repeated_query_field_refused(fields: Seq<Seq<char>>, i: int, j: int, key: Seq<char>)
    requires
        key == "prompt"@ || key == "tokens"@,
        0 <= i < j < fields.len(),
        names_field(fields[i], key),
        names_field(fields[j], key),
    ensures
        fields_from(fields, 0, None, None) is Err,
        fields_from(fields.take(j), 0, None, None) is Ok ==> fields_from(fields, 0, None, None) == Err::<
            (Option<Seq<char>>, Option<nat>),
            &'static str,
        >("unknown or duplicate query field"),
{
    assert(names_field(fields[i], key));
    lemma_fields_repeat_refused(fields, 0, j, key, None, None);
}

} // verus!
