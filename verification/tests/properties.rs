//! Property scenarios: chunk-split equivalence, capacity boundaries,
//! malformed rejection, lenient terminators, and value trimming.

use pico::request::RequestParser;
use pico::request::RequestParserError;
use pico::response::ResponseParser;
use pico::response::ResponseParserError;
use pico::Span;
use pico::Version;

const REQUEST: &'static [u8] = b"GET /hoge HTTP/1.1\r\nHost: example.com\r\nCookie: \r\n\r\n";

fn bytes_of(p: &RequestParser, sp: Span) -> Vec<u8> {
    p.span_bytes(sp).unwrap()
}

/// Feed every byte in its own chunk until the parser reports a terminal
/// outcome.
fn drip_request(input: &[u8], cap: usize, hcap: usize) -> (
    RequestParser,
    Result<Option<pico::request::Request>, RequestParserError>,
) {
    let mut p = RequestParser::new(cap, hcap);
    let mut last = p.advance();
    for &b in input {
        match &last {
            Ok(None) => {},
            _ => break,
        }
        p.feed(&[b]);
        last = p.advance();
    }
    (p, last)
}

#[test]
fn one_chunk_and_one_byte_chunks_agree() {
    let mut whole = RequestParser::new(4096, 8);
    assert_eq!(whole.feed(REQUEST), REQUEST.len());
    let w = whole.advance().unwrap().unwrap();

    let (drip, last) = drip_request(REQUEST, 4096, 8);
    let d = last.unwrap().unwrap();

    assert_eq!(w.version, d.version);
    assert_eq!(bytes_of(&whole, w.method.0), bytes_of(&drip, d.method.0));
    assert_eq!(bytes_of(&whole, w.path.0), bytes_of(&drip, d.path.0));
    assert_eq!(w.headers.0.len(), d.headers.0.len());
    for k in 0..w.headers.0.len() {
        assert_eq!(bytes_of(&whole, w.headers.0[k].0), bytes_of(&drip, d.headers.0[k].0));
        assert_eq!(bytes_of(&whole, w.headers.0[k].1), bytes_of(&drip, d.headers.0[k].1));
    }
    assert_eq!(bytes_of(&whole, w.raw), bytes_of(&drip, d.raw));
    assert_eq!(whole.leftover(), drip.leftover());
}

#[test]
fn split_inside_crlf_agrees() {
    // split right between CR and LF of the first line
    let cut = REQUEST.iter().position(|&b| b == b'\r').unwrap() + 1;
    let mut p = RequestParser::new(4096, 8);
    p.feed(&REQUEST[..cut]);
    assert!(matches!(p.advance(), Ok(None)));
    p.feed(&REQUEST[cut..]);
    let r = p.advance().unwrap().unwrap();
    assert_eq!(r.version, Version(1, 1));
    assert_eq!(bytes_of(&p, r.method.0), b"GET".to_vec());
    assert_eq!(bytes_of(&p, r.raw), REQUEST.to_vec());
}

#[test]
fn head_of_exactly_capacity_parses() {
    let mut p = RequestParser::new(REQUEST.len(), 8);
    assert_eq!(p.feed(REQUEST), REQUEST.len());
    let r = p.advance().unwrap().unwrap();
    assert_eq!(bytes_of(&p, r.raw), REQUEST.to_vec());
    assert_eq!(p.leftover(), Vec::<u8>::new());
}

#[test]
fn head_over_capacity_is_too_long() {
    let mut p = RequestParser::new(REQUEST.len() - 1, 8);
    assert_eq!(p.feed(REQUEST), REQUEST.len() - 1);
    assert!(matches!(p.advance(), Err(RequestParserError::TooLong)));
}

#[test]
fn exactly_header_capacity_parses() {
    let input = b"GET / HTTP/1.1\r\nA: 1\r\nB: 2\r\n\r\n";
    let mut p = RequestParser::new(4096, 2);
    p.feed(input);
    let r = p.advance().unwrap().unwrap();
    assert_eq!(r.headers.0.len(), 2);
    assert_eq!(bytes_of(&p, r.headers.0[1].0), b"B".to_vec());
}

#[test]
fn over_header_capacity_fails() {
    let input = b"GET / HTTP/1.1\r\nA: 1\r\nB: 2\r\n\r\n";
    let mut p = RequestParser::new(4096, 1);
    p.feed(input);
    assert!(matches!(p.advance(), Err(RequestParserError::TooManyHeaders)));
}

#[test]
fn missing_second_space_is_parse_error() {
    let mut p = RequestParser::new(4096, 8);
    p.feed(b"GET /hoge\r\nHost: example.com\r\n\r\n");
    assert!(matches!(p.advance(), Err(RequestParserError::ParseError)));
}

#[test]
fn header_without_colon_is_parse_error() {
    let mut p = RequestParser::new(4096, 8);
    p.feed(b"GET /hoge HTTP/1.1\r\nHost example.com\r\n\r\n");
    assert!(matches!(p.advance(), Err(RequestParserError::ParseError)));
}

#[test]
fn folded_header_is_parse_error() {
    let mut p = RequestParser::new(4096, 8);
    p.feed(b"GET /hoge HTTP/1.1\r\nHost: example.com\r\n folded\r\n\r\n");
    assert!(matches!(p.advance(), Err(RequestParserError::ParseError)));
}

#[test]
fn bare_lf_terminators_are_accepted() {
    let mut p = RequestParser::new(4096, 8);
    p.feed(b"GET / HTTP/1.0\nHost: a\n\n");
    let r = p.advance().unwrap().unwrap();
    assert_eq!(r.version, Version(1, 0));
    assert_eq!(bytes_of(&p, r.headers.0[0].1), b"a".to_vec());
}

#[test]
fn cr_without_lf_is_parse_error() {
    let mut p = RequestParser::new(4096, 8);
    p.feed(b"GET / HTTP/1.1\rXHost: a\r\n\r\n");
    assert!(matches!(p.advance(), Err(RequestParserError::ParseError)));
}

#[test]
fn trailing_cr_waits_for_more() {
    let mut p = RequestParser::new(4096, 8);
    p.feed(b"GET / HTTP/1.1\r");
    assert!(matches!(p.advance(), Ok(None)));
    p.feed(b"\n\r\n");
    let r = p.advance().unwrap().unwrap();
    assert_eq!(r.headers.0.len(), 0);
}

#[test]
fn header_value_is_trimmed() {
    let mut p = RequestParser::new(4096, 8);
    p.feed(b"GET / HTTP/1.1\r\nA: \t padded \t \r\n\r\n");
    let r = p.advance().unwrap().unwrap();
    assert_eq!(bytes_of(&p, r.headers.0[0].1), b"padded".to_vec());
}

#[test]
fn response_without_reason_parses() {
    let mut p = ResponseParser::new(4096, 8);
    p.feed(b"HTTP/1.1 404\r\n\r\n");
    let r = p.advance().unwrap().unwrap();
    assert_eq!(r.status.0, 404);
    assert_eq!(p.span_bytes(r.reason).unwrap(), Vec::<u8>::new());
}

#[test]
fn response_status_and_leftover_boundary() {
    let input = b"HTTP/1.1 301 Moved Permanently\r\nLocation: /new\r\n\r\ntail";
    let mut p = ResponseParser::new(4096, 8);
    p.feed(input);
    let r = p.advance().unwrap().unwrap();
    assert_eq!(r.status.0, 301);
    assert_eq!(p.span_bytes(r.reason).unwrap(), b"Moved Permanently".to_vec());
    // the raw span ends one byte past the empty line's terminator
    assert_eq!(r.raw.off, 0);
    assert_eq!(r.raw.len, input.len() - 4);
    assert_eq!(p.leftover(), b"tail".to_vec());
}

#[test]
fn incomplete_response_keeps_bytes_unconsumed() {
    let mut p = ResponseParser::new(4096, 8);
    assert_eq!(p.feed(b"HTTP/1.1 200"), 12);
    assert!(matches!(p.advance(), Ok(None)));
    assert_eq!(p.leftover(), b"HTTP/1.1 200".to_vec());
}

#[test]
fn feed_reports_short_append_when_budget_is_spent() {
    let mut p = ResponseParser::new(4, 8);
    assert_eq!(p.feed(b"HTTP/1.1"), 4);
    assert!(matches!(p.advance(), Err(ResponseParserError::TooLong)));
}

#[test]
fn empty_cookie_value_is_kept() {
    let mut p = RequestParser::new(4096, 8);
    p.feed(REQUEST);
    let r = p.advance().unwrap().unwrap();
    assert_eq!(r.headers.0.len(), 2);
    assert_eq!(bytes_of(&p, r.headers.0[1].0), b"Cookie".to_vec());
    assert_eq!(bytes_of(&p, r.headers.0[1].1), Vec::<u8>::new());
    assert_eq!(p.leftover(), Vec::<u8>::new());
}

#[test]
fn leftover_after_parse_error_is_all_bytes() {
    let input = b"GET /hoge\r\nHost: example.com\r\n\r\n";
    let mut p = RequestParser::new(4096, 8);
    p.feed(input);
    assert!(matches!(p.advance(), Err(RequestParserError::ParseError)));
    assert_eq!(p.leftover(), input.to_vec());
}

#[test]
fn leftover_after_too_long_is_all_buffered_bytes() {
    let mut p = RequestParser::new(REQUEST.len() - 1, 8);
    p.feed(REQUEST);
    assert!(matches!(p.advance(), Err(RequestParserError::TooLong)));
    assert_eq!(p.leftover(), REQUEST[..REQUEST.len() - 1].to_vec());
}
