//! End-to-end parsing scenarios, driven through the chunk-reader traits.

use pico::Chunks;
use pico::ChunkReader;
use pico::Span;
use pico::Version;
use pico::request::RequestParser;
use pico::response::ResponseParser;

#[derive(Clone, Copy)]
struct DataReader {
    data: &'static [u8],
    num_reads: usize,
}

impl Chunks for DataReader {
    type Reader = DataReader;

    fn chunk(self) -> DataReader {
        self
    }
}

impl ChunkReader for DataReader {
    fn read(&mut self, max: usize) -> Option<Vec<u8>> {
        if self.num_reads == 0 {
            None
        } else {
            self.num_reads -= 1;
            let n = if self.data.len() < max { self.data.len() } else { max };
            Some(self.data[..n].to_vec())
        }
    }
}

fn req_str(p: &RequestParser, sp: Span) -> String {
    String::from_utf8(p.span_bytes(sp).unwrap()).unwrap()
}

fn resp_str(p: &ResponseParser, sp: Span) -> String {
    String::from_utf8(p.span_bytes(sp).unwrap()).unwrap()
}

const REQUEST: &'static [u8] = b"GET /hoge HTTP/1.1\r\nHost: example.com\r\nCookie: \r\n\r\n";

const RESPONSE: &'static [u8] = b"HTTP/1.1 200 OK\r\nContent-Length: 14\r\n\r\nHello World\r\n\r\n";

const PARTIAL_RESPONSE: &'static [u8] = b"HTTP/1.1 200";

#[test]
fn test_request_parse() {
    let mut parser = RequestParser::new(4096, 8);
    let request = parser.parse(DataReader { data: REQUEST, num_reads: 1 });
    let r = request.unwrap();
    assert_eq!(r.version, Version(1, 1));
    assert_eq!(req_str(&parser, r.path.0), "/hoge");
    assert_eq!(req_str(&parser, r.method.0), "GET");
    assert_eq!(req_str(&parser, r.headers.0[0].0), "Host");
    assert_eq!(req_str(&parser, r.headers.0[0].1), "example.com");
    assert_eq!(
        req_str(&parser, r.raw),
        "GET /hoge HTTP/1.1\r\nHost: example.com\r\nCookie: \r\n\r\n"
    );
}

#[test]
fn test_response_parse() {
    let mut parser = ResponseParser::new(4096, 8);
    let response = parser.parse(DataReader { data: RESPONSE, num_reads: 1 });
    let r = response.unwrap();
    assert_eq!(r.version, Version(1, 1));
    assert_eq!(r.status.0, 200);
    assert_eq!(resp_str(&parser, r.reason), "OK");
    assert_eq!(resp_str(&parser, r.headers.0[0].0), "Content-Length");
    assert_eq!(resp_str(&parser, r.headers.0[0].1), "14");
    assert_eq!(resp_str(&parser, r.raw), "HTTP/1.1 200 OK\r\nContent-Length: 14\r\n\r\n");
    let remaining = parser.leftover();
    assert_eq!(String::from_utf8(remaining).unwrap(), "Hello World\r\n\r\n");
}

#[test]
fn test_incomplete_parse() {
    let mut parser = ResponseParser::new(4096, 8);
    let response = parser.parse(DataReader { data: PARTIAL_RESPONSE, num_reads: 1 });
    assert!(response.is_err());
    let remaining = parser.leftover();
    assert_eq!(remaining, PARTIAL_RESPONSE.to_vec());
}
