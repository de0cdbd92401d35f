//! The serving boundary of a deployed model: a request body must be
//! exactly `schema=1&x=<number>`, with no other fields.
use vstd::prelude::*;
use crate::text::{chars_of, eq_str, split_char, split_on, string_from_chars, strip_prefix, strip_prefix_spec};

verus! {

/// The text of `x` in a body of the form `schema=1&x=<text>`, or why the
/// body is refused.
pub open spec fn schema_value(body: Seq<char>) -> Result<Seq<char>, &'static str> {
    let fields = split_on(body, '&');
    if fields.len() != 2 || fields[0] != "schema=1"@ {
        Err("request must be exactly schema=1&x=<number>")
    } else {
        match strip_prefix_spec(fields[1], "x="@) {
            None => Err("request must be exactly schema=1&x=<number>"),
            Some(x) => if x.len() == 0 {
                Err("request must be exactly schema=1&x=<number>")
            } else {
                Ok(x)
            },
        }
    }
}

/// Checks a request body against schema 1 and returns the text of its
/// input `x`; the caller reads that text as a finite `f64`.
pub fn parse_request(body: &str) -> (r: Result<String, &'static str>)
    ensures
        match r {
            Ok(x) => schema_value(body@) == Ok::<Seq<char>, &'static str>(x@),
            Err(e) => schema_value(body@) == Err::<Seq<char>, &'static str>(e),
        },
{
    let cs = chars_of(body);
    let fields = split_char(&cs, '&');
    if fields.len() != 2 || !eq_str(&fields[0], "schema=1") {
        proof {
            if fields@.len() == 2 {
                assert(fields@[0]@ == split_on(body@, '&')[0]);
            }
        }
        return Err("request must be exactly schema=1&x=<number>");
    }
    assert(fields@[0]@ == split_on(body@, '&')[0]);
    assert(fields@[1]@ == split_on(body@, '&')[1]);
    match strip_prefix(&fields[1], "x=") {
        None => Err("request must be exactly schema=1&x=<number>"),
        Some(x) => {
            if x.len() == 0 {
                Err("request must be exactly schema=1&x=<number>")
            } else {
                Ok(string_from_chars(&x))
            }
        },
    }
}

} // verus!
