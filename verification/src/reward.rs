//! The verifiable reward of preference training: a prompt
//! `a + b` and a candidate answer earn the reward exactly when the answer
//! is the sum.
use vstd::prelude::*;
use crate::text::{
    chars_from, digits_value, is_digit, parse_unsigned, parse_unsigned_spec, split_once,
    split_once_spec, trim, trim_chars,
};

verus! {

/// `s` as a signed decimal the way `str::parse` reads signed integers: an
/// optional `+` or `-`, then one or more ASCII digits.
pub open spec fn parse_signed_spec(s: Seq<char>) -> Option<int> {
    if s.len() > 0 && s[0] == '-' {
        let d = s.skip(1);
        if d.len() > 0 && forall|i: int| 0 <= i < d.len() ==> is_digit(#[trigger] d[i]) {
            Some(-(digits_value(d) as int))
        } else {
            None
        }
    } else {
        match parse_unsigned_spec(s) {
            Some(v) => Some(v as int),
            None => None,
        }
    }
}

/// `s` read as an `i64`, when it is one.
pub open spec fn parse_i64_spec(s: Seq<char>) -> Option<i64> {
    match parse_signed_spec(s) {
        Some(v) => if i64::MIN <= v <= i64::MAX {
            Some(v as i64)
        } else {
            None
        },
        None => None,
    }
}

/// Reads `s` as an `i64` the way `str::parse::<i64>` does.
pub fn parse_i64(s: &[char]) -> (r: Option<i64>)
    ensures
        r == parse_i64_spec(s@),
{
    if s.len() > 0 && s[0] == '-' {
        let rest = chars_from(s, 1);
        if rest.len() > 0 && rest[0] == '+' {
            assert(!is_digit(rest@[0]));
            return None;
        }
        match parse_unsigned(&rest, 0x8000_0000_0000_0000) {
            Some(v) => {
                assert(parse_unsigned_spec(rest@) == Some(v as nat));
                if v == 0x8000_0000_0000_0000 {
                    Some(i64::MIN)
                } else {
                    Some(0 - (v as i64))
                }
            },
            None => None,
        }
    } else {
        match parse_unsigned(s, 0x7fff_ffff_ffff_ffff) {
            Some(v) => Some(v as i64),
            None => None,
        }
    }
}

/// What a prompt `a + b` and a candidate make: whether the candidate is
/// the sum, or why the prompt cannot be checked.
pub open spec fn reward_spec(prompt: Seq<char>, candidate: i64) -> Result<bool, &'static str> {
    match split_once_spec(prompt, '+') {
        None => Err("prompt must contain one plus sign"),
        Some((left, right)) => match parse_i64_spec(trim(left)) {
            None => Err("left operand is invalid"),
            Some(a) => match parse_i64_spec(trim(right)) {
                None => Err("right operand is invalid"),
                Some(b) => if a + b < i64::MIN || a + b > i64::MAX {
                    Err("arithmetic sum overflows i64")
                } else {
                    Ok(candidate == a + b)
                },
            },
        },
    }
}

/// Whether `candidate` is the sum that the prompt `a + b` asks for.
pub fn arithmetic_reward(prompt: &str, candidate: i64) -> (r: Result<bool, &'static str>)
    ensures
        r == reward_spec(prompt@, candidate),
{
    let cs = crate::text::chars_of(prompt);
    let (left, right) = match split_once(&cs, '+') {
        None => {
            return Err("prompt must contain one plus sign");
        },
        Some(parts) => parts,
    };
    let a = match parse_i64(&trim_chars(&left)) {
        None => {
            return Err("left operand is invalid");
        },
        Some(a) => a,
    };
    let b = match parse_i64(&trim_chars(&right)) {
        None => {
            return Err("right operand is invalid");
        },
        Some(b) => b,
    };
    match a.checked_add(b) {
        None => Err("arithmetic sum overflows i64"),
        Some(sum) => Ok(candidate == sum),
    }
}

} // verus!
