//! Incremental, zero-copy parsing of HTTP/1.x request and response heads.
//!
//! Bytes arrive in chunks of arbitrary size; the parser scans each byte region
//! once, keeping a watermark so that resumption after "need more data" never
//! re-examines more than a constant-size window of the buffer. Results borrow
//! the accumulated buffer through `Span` values instead of copies.

use vstd::prelude::*;

pub mod grammar;
mod scan;
mod engine;
pub mod request;
pub mod response;

verus! {

/// A non-owning view into the parser's buffer: `len` bytes starting at `off`.
#[derive(Clone, Copy, Debug, PartialEq, Eq, Structural)]
pub struct Span {
    pub off: usize,
    pub len: usize,
}

impl Span {
    /// Whether the span lies inside a buffer whose contents are `s`.
    pub open spec fn in_bounds(self, s: Seq<u8>) -> bool {
        self.off + self.len <= s.len()
    }

    /// The bytes the span denotes within a buffer whose contents are `s`.
    pub open spec fn slice_of(self, s: Seq<u8>) -> Seq<u8> {
        s.subrange(self.off as int, self.off + self.len)
    }
}

/// A single HTTP header field: name span and value span.
#[derive(Clone, Copy, Debug, PartialEq, Eq, Structural)]
pub struct Header(pub Span, pub Span);

/// The HTTP headers of a parsed head, in wire order.
#[derive(Clone, Debug)]
pub struct Headers(pub Vec<Header>);

/// The HTTP method.
#[derive(Clone, Copy, Debug, PartialEq, Eq, Structural)]
pub struct Method(pub Span);

/// The HTTP request path.
#[derive(Clone, Copy, Debug, PartialEq, Eq, Structural)]
pub struct Path(pub Span);

/// The HTTP status code.
#[derive(Clone, Copy, Debug, PartialEq, Eq, Structural)]
pub struct Status(pub u16);

/// The HTTP version.
#[derive(Clone, Copy, Debug, PartialEq, Eq, Structural)]
pub struct Version(pub u8, pub u8);

/// A source of byte chunks that never blocks: each call either delivers the
/// next chunk, at most `max` bytes of it, or reports that no data is
/// available right now by returning `None`.
pub trait ChunkReader {
    /// Retrieve one chunk of at most `max` bytes, or `None` when no data is
    /// available without blocking.
    fn read(&mut self, max: usize) -> Option<Vec<u8>>;
}

/// A supply of chunks, turned into a [`ChunkReader`] to be drained.
pub trait Chunks {
    /// The reader this supply is drained through.
    type Reader: ChunkReader;

    /// Hand over the reader for the chunks.
    fn chunk(self) -> Self::Reader;
}

} // verus!
