use first_principles::http::{json_escape, parse_request, percent_decode};
use first_principles::schema;

fn schema_request(body: &str) -> Result<f64, &'static str> {
    let text = schema::parse_request(body)?;
    match text.parse::<f64>() {
        Ok(x) if x.is_finite() => Ok(x),
        _ => Err("x must be a finite number"),
    }
}

#[test]
fn request_schema_is_explicit() {
    assert_eq!(schema_request("schema=1&x=12.5"), Ok(12.5));
    assert!(schema_request("x=12.5").is_err());
}

#[test]
fn schema_refuses_extra_or_missing_fields() {
    assert_eq!(schema::parse_request("schema=1&x=12.5").unwrap(), "12.5");
    assert!(schema::parse_request("schema=1&x=1&y=2").is_err());
    assert!(schema::parse_request("schema=2&x=1").is_err());
    assert!(schema::parse_request("schema=1&x=").is_err());
    assert!(schema_request("schema=1&x=inf").is_err());
}

#[test]
fn request_boundary_is_strict() {
    assert_eq!(
        parse_request("GET /generate?prompt=rust+moe&tokens=4 HTTP/1.1\r\n\r\n").unwrap(),
        ("rust moe".into(), 4)
    );
    assert!(parse_request("POST /generate?prompt=x HTTP/1.1\r\n\r\n").is_err());
    assert!(parse_request("GET /generate?prompt=x&tokens=999 HTTP/1.1\r\n\r\n").is_err());
}

#[test]
fn request_errors_name_their_cause() {
    assert_eq!(parse_request("GET /generate?prompt=x HTTP/1.1\r\n"), Err("incomplete or oversized request"));
    assert_eq!(parse_request("GET /other HTTP/1.1\r\n\r\n"), Err("unknown endpoint"));
    assert_eq!(parse_request("GET /generate?tokens=3 HTTP/1.1\r\n\r\n"), Err("prompt is required"));
    assert_eq!(
        parse_request("GET /generate?prompt=a&prompt=b HTTP/1.1\r\n\r\n"),
        Err("unknown or duplicate query field")
    );
    assert_eq!(
        parse_request("GET /generate?prompt=a HTTP/1.1\r\nTransfer-Encoding: chunked\r\n\r\n"),
        Err("body transfer encoding is unsupported")
    );
    assert_eq!(
        parse_request("GET /generate?prompt=a HTTP/1.1\r\nContent-Length: 5\r\n\r\n"),
        Err("GET must have no body and one content length")
    );
    assert_eq!(
        parse_request("GET /generate?prompt=a HTTP/1.1\r\nBad Header: 1\r\n\r\n"),
        Err("invalid header name")
    );
    assert_eq!(
        parse_request("GET /generate?prompt=a HTTP/1.1\r\nNoColon\r\n\r\n"),
        Err("malformed header")
    );
    assert_eq!(parse_request("GET /generate?prompt HTTP/1.1\r\n\r\n"), Err("malformed query"));
    assert_eq!(parse_request("GET /generate?prompt=%zz HTTP/1.1\r\n\r\n"), Err("bad escape"));
    assert_eq!(
        parse_request("GET /generate?prompt=a&tokens=x HTTP/1.1\r\n\r\n"),
        Err("invalid token count")
    );
    let long = format!("GET /generate?prompt={} HTTP/1.1\r\n\r\n", "a".repeat(300));
    assert_eq!(
        parse_request(&long),
        Err("prompt must be 1..256 ASCII bytes and tokens at most 64")
    );
    assert_eq!(
        parse_request("GET /generate?prompt=hi HTTP/1.1\r\nHost: x\r\ncontent-length:  0 \r\n\r\n"),
        Ok(("hi".to_string(), 24))
    );
    let oversized = format!("GET /generate?prompt=a HTTP/1.1\r\nX: {}\r\n\r\n", "b".repeat(5000));
    assert_eq!(parse_request(&oversized), Err("incomplete or oversized request"));
}

#[test]
fn percent_decoding_handles_escapes_and_utf8() {
    assert_eq!(percent_decode("a+b%21").unwrap(), "a b!");
    assert_eq!(percent_decode("caf%C3%A9").unwrap(), "café");
    assert_eq!(percent_decode("%+9").unwrap(), "\u{9}");
    assert_eq!(percent_decode("%4"), Err("bad escape"));
    assert_eq!(percent_decode("%FF"), Err("prompt is not UTF-8"));
}

#[test]
fn json_escape_protects_quotes_and_controls() {
    assert_eq!(json_escape("a\"b\\c\nd\te\u{7f}é"), "a\\\"b\\\\c\\nd?e?é");
}
