//! HTTP response parsing: the public resumable parser for response heads.

use vstd::prelude::*;

use crate::Span;
use crate::Headers;
use crate::Status;
use crate::Version;
use crate::ChunkReader;
use crate::Chunks;
use crate::grammar::MessageKind;
use crate::grammar::HeadModel;
use crate::grammar::HeadOutcome;
use crate::grammar::parse_head;
use crate::grammar::lemma_consumed_boundary;
use crate::engine::Engine;
use crate::engine::EngineState;
use crate::engine::Step;
use crate::engine::copy_headers;
use crate::engine::copy_range;

verus! {

/// A parsed response head. All spans index the parser's accumulated buffer;
/// `raw` covers the whole head, terminator included.
#[derive(Clone, Debug)]
pub struct Response {
    /// The response HTTP version.
    pub version: Version,
    /// The response HTTP status.
    pub status: Status,
    /// The response HTTP headers, in wire order.
    pub headers: Headers,
    /// The reason phrase of this response.
    pub reason: Span,
    /// The whole head as received, not including the body.
    pub raw: Span,
}

/// An error from a `ResponseParser`.
#[derive(Debug, PartialEq, Eq, Structural, Clone, Copy)]
pub enum ResponseParserError {
    /// The bytes do not form a response head.
    ParseError,
    /// The head does not fit in the parser's byte budget.
    TooLong,
    /// The head holds more header fields than the parser has room for.
    TooManyHeaders,
    /// The chunks did not contain a full response.
    IncompleteResponse,
}

/// The assembled `resp` denotes exactly the model `m` within buffer contents
/// `s`.
pub open spec fn resp_matches(resp: Response, s: Seq<u8>, m: HeadModel) -> bool {
    &&& resp.version.0 == m.major
    &&& resp.version.1 == m.minor
    &&& resp.status.0 == m.status
    &&& resp.reason.in_bounds(s)
    &&& resp.reason.slice_of(s) == m.reason
    &&& resp.headers.0@.len() == m.headers.len()
    &&& (forall|k: int|
        0 <= k < m.headers.len() ==> (#[trigger] resp.headers.0@[k]).0.in_bounds(s)
            && resp.headers.0@[k].1.in_bounds(s) && resp.headers.0@[k].0.slice_of(s)
            == m.headers[k].0 && resp.headers.0@[k].1.slice_of(s) == m.headers[k].1)
    &&& resp.raw.off == 0
    &&& resp.raw.len == m.consumed
}

/// A resumable parser for one response head. Chunks are appended with
/// [`ResponseParser::feed`]; each [`ResponseParser::advance`] resumes
/// scanning at the watermark and reports the outcome the grammar assigns to
/// all bytes received so far.
pub struct ResponseParser {
    eng: Engine,
}

impl ResponseParser {
    /// The bytes received so far.
    pub closed spec fn bytes(self) -> Seq<u8> {
        self.eng.buf@
    }

    /// The fixed byte budget for the head.
    pub closed spec fn capacity(self) -> usize {
        self.eng.cap
    }

    /// The fixed budget of header fields.
    pub closed spec fn header_capacity(self) -> usize {
        self.eng.hcap
    }

    /// The parser's invariant.
    pub closed spec fn wf(self) -> bool {
        self.eng.wf() && self.eng.kind == MessageKind::Response
    }

    /// More chunks may still be fed and scanned.
    pub closed spec fn is_running(self) -> bool {
        self.eng.is_running()
    }

    /// A complete head has been recognized.
    pub closed spec fn is_done(self) -> bool {
        self.eng.state is Done
    }

    /// A terminal error has been reported.
    pub closed spec fn is_failed(self) -> bool {
        self.eng.state is Failed
    }

    /// One past the parsed head once complete; 0 before.
    pub closed spec fn consumed_len(self) -> int {
        if self.eng.state is Done {
            self.eng.consumed as int
        } else {
            0
        }
    }

    /// How many bytes the terminator scanner has inspected in all.
    pub closed spec fn scan_work(self) -> nat {
        self.eng.work@
    }

    /// How many times scanning has been resumed.
    pub closed spec fn resumptions(self) -> nat {
        self.eng.rounds@
    }

    /// The scan watermark: the offset up to which the scanner has confirmed
    /// that no line terminator completes. It never moves backwards.
    pub closed spec fn watermark(self) -> usize {
        self.eng.probe
    }

    /// The outcome the grammar assigns to the bytes received so far.
    pub open spec fn outcome(self) -> HeadOutcome {
        parse_head(MessageKind::Response, self.bytes(), self.header_capacity() as int)
    }

    /// A fresh parser with a byte budget of `capacity` and room for
    /// `header_capacity` header fields.
    pub fn new(capacity: usize, header_capacity: usize) -> (r: ResponseParser)
        ensures
            r.wf(),
            r.is_running(),
            !r.is_done(),
            !r.is_failed(),
            r.bytes() == Seq::<u8>::empty(),
            r.capacity() == capacity,
            r.header_capacity() == header_capacity,
            r.consumed_len() == 0,
            r.resumptions() == 0,
    {
        ResponseParser { eng: Engine::new(MessageKind::Response, capacity, header_capacity) }
    }

    /// Append as much of `chunk` as the byte budget admits and return the
    /// count appended; it falls short of `chunk`'s length exactly when the
    /// budget is exhausted.
    pub fn feed(&mut self, chunk: &[u8]) -> (n: usize)
        requires
            old(self).wf(),
        ensures
            final(self).wf(),
            chunk@.len() <= old(self).capacity() - old(self).bytes().len() ==> n == chunk@.len(),
            chunk@.len() > old(self).capacity() - old(self).bytes().len() ==> n == old(self).capacity() - old(self).bytes().len(),
            final(self).bytes() == old(self).bytes() + chunk@.subrange(0, n as int),
            final(self).capacity() == old(self).capacity(),
            final(self).header_capacity() == old(self).header_capacity(),
            final(self).is_running() == old(self).is_running(),
            final(self).is_done() == old(self).is_done(),
            final(self).is_failed() == old(self).is_failed(),
            final(self).consumed_len() == old(self).consumed_len(),
            final(self).resumptions() == old(self).resumptions(),
            final(self).watermark() == old(self).watermark(),
    {
        self.eng.feed(chunk)
    }

    /// Resume scanning and report the outcome for all bytes received so far:
    /// the parsed response, `None` for "need more data", or the error the
    /// grammar or the budgets dictate. The outcome never depends on how the
    /// bytes were split into chunks.
    pub fn advance(&mut self) -> (r: Result<Option<Response>, ResponseParserError>)
        requires
            old(self).wf(),
            old(self).is_running(),
        ensures
            final(self).wf(),
            final(self).bytes() == old(self).bytes(),
            final(self).capacity() == old(self).capacity(),
            final(self).header_capacity() == old(self).header_capacity(),
            final(self).resumptions() == old(self).resumptions() + 1,
            final(self).watermark() >= old(self).watermark(),
            match r {
                Ok(Some(resp)) => {
                    &&& old(self).outcome() is Complete
                    &&& resp_matches(resp, old(self).bytes(), old(self).outcome()->Complete_0)
                    &&& final(self).is_done()
                    &&& final(self).consumed_len() == old(self).outcome()->Complete_0.consumed
                },
                Ok(None) => old(self).outcome() is Incomplete && old(self).bytes().len() < old(self).capacity() && final(self).is_running() && final(self).consumed_len() == 0,
                Err(ResponseParserError::ParseError) => old(self).outcome() is Malformed && final(self).is_failed() && final(self).consumed_len() == 0,
                Err(ResponseParserError::TooLong) => old(self).outcome() is Incomplete && old(self).bytes().len() == old(self).capacity() && final(self).is_failed() && final(self).consumed_len() == 0,
                Err(ResponseParserError::TooManyHeaders) => old(self).outcome() is TooManyHeaders && final(self).is_failed() && final(self).consumed_len() == 0,
                Err(ResponseParserError::IncompleteResponse) => false,
            },
    {
        match self.eng.advance() {
            Step::Complete => {
                let resp = Response {
                    version: Version(self.eng.major, self.eng.minor),
                    status: Status(self.eng.status),
                    headers: Headers(copy_headers(&self.eng.headers)),
                    reason: self.eng.reason,
                    raw: Span { off: 0, len: self.eng.consumed },
                };
                proof {
                    assert(resp_matches(resp, self.eng.buf@, self.eng.model()));
                }
                Ok(Some(resp))
            },
            Step::NeedMore => Ok(None),
            Step::Full => Err(ResponseParserError::TooLong),
            Step::Malformed => Err(ResponseParserError::ParseError),
            Step::TooMany => Err(ResponseParserError::TooManyHeaders),
        }
    }

    /// How many bytes have been received.
    pub fn filled_len(&self) -> (n: usize)
        ensures
            n == self.bytes().len(),
    {
        self.eng.buf.len()
    }

    /// How many more bytes the budget admits; when it reaches zero with the
    /// head still unfinished, the next `advance` reports `TooLong`.
    pub fn remaining_capacity(&self) -> (n: usize)
        requires
            self.wf(),
        ensures
            n == self.capacity() - self.bytes().len(),
    {
        self.eng.cap - self.eng.buf.len()
    }

    /// Materialize the bytes a span denotes, when it lies within the bytes
    /// received.
    pub fn span_bytes(&self, sp: Span) -> (r: Option<Vec<u8>>)
        ensures
            match r {
                Some(v) => sp.in_bounds(self.bytes()) && v@ == sp.slice_of(self.bytes()),
                None => !sp.in_bounds(self.bytes()),
            },
    {
        if sp.len <= self.eng.buf.len() && sp.off <= self.eng.buf.len() - sp.len {
            Some(copy_range(&self.eng.buf, sp.off, sp.off + sp.len))
        } else {
            None
        }
    }

    /// The bytes beyond the parsed head — the body or the next pipelined
    /// message — or all bytes received while no head is complete.
    pub fn leftover(&self) -> (r: Vec<u8>)
        requires
            self.wf(),
        ensures
            r@ == self.bytes().subrange(self.consumed_len(), self.bytes().len() as int),
            !self.is_done() ==> r@ == self.bytes(),
    {
        proof {
            assert(self.bytes().subrange(0, self.bytes().len() as int) =~= self.bytes());
        }
        let start = if matches!(self.eng.state, EngineState::Done) {
            self.eng.consumed
        } else {
            0
        };
        copy_range(&self.eng.buf, start, self.eng.buf.len())
    }

    /// Drive the parser from `chunks` to a terminal outcome in an explicit
    /// loop: read a chunk, append it, resume scanning. A reader that reports
    /// no data, or runs dry, leaves the parser running and yields
    /// `IncompleteResponse`.
    #[verifier::loop_isolation(false)]
    pub fn parse<C: Chunks>(&mut self, chunks: C) -> (r: Result<Response, ResponseParserError>)
        requires
            old(self).wf(),
            old(self).is_running(),
        ensures
            final(self).wf(),
            old(self).bytes().is_prefix_of(final(self).bytes()),
            final(self).capacity() == old(self).capacity(),
            final(self).header_capacity() == old(self).header_capacity(),
            old(self).bytes().len() == old(self).capacity() && old(self).outcome() is Incomplete
                ==> r matches Err(ResponseParserError::TooLong),
            match r {
                Ok(resp) => {
                    &&& final(self).outcome() is Complete
                    &&& resp_matches(resp, final(self).bytes(), final(self).outcome()->Complete_0)
                    &&& final(self).is_done()
                },
                Err(ResponseParserError::ParseError) => final(self).outcome() is Malformed && final(self).is_failed() && final(self).consumed_len() == 0,
                Err(ResponseParserError::TooLong) => final(self).outcome() is Incomplete && final(self).bytes().len() == final(self).capacity() && final(self).is_failed() && final(self).consumed_len() == 0,
                Err(ResponseParserError::TooManyHeaders) => final(self).outcome() is TooManyHeaders && final(self).is_failed() && final(self).consumed_len() == 0,
                Err(ResponseParserError::IncompleteResponse) => final(self).outcome() is Incomplete && final(self).is_running() && final(self).consumed_len() == 0,
            },
    {
        let mut reader = chunks.chunk();
        loop
            invariant
                self.wf(),
                self.is_running(),
                self.capacity() == old(self).capacity(),
                self.header_capacity() == old(self).header_capacity(),
                old(self).bytes().is_prefix_of(self.bytes()),
                old(self).bytes().len() == old(self).capacity() && old(self).outcome()
                    is Incomplete ==> self.bytes() == old(self).bytes(),
            decreases self.capacity() - self.bytes().len(),
        {
            match self.advance() {
                Ok(Some(resp)) => {
                    return Ok(resp);
                },
                Ok(None) => {},
                Err(e) => {
                    return Err(e);
                },
            }
            let room = self.eng.cap - self.eng.buf.len();
            match reader.read(room) {
                None => {
                    return Err(ResponseParserError::IncompleteResponse);
                },
                Some(v) => {
                    let n = self.feed(v.as_slice());
                    proof {
                        assert(old(self).bytes() =~= self.bytes().subrange(
                            0,
                            old(self).bytes().len() as int,
                        ));
                    }
                    if n == 0 {
                        return Err(ResponseParserError::IncompleteResponse);
                    }
                },
            }
        }
    }
}

/// Full-buffer equivalence: parsers that have received the same bytes with
/// the same header budget assign the same outcome — the chunks that
/// delivered the bytes leave no trace. With `lemma_head_terminal_stable`,
/// a terminal outcome also survives any further delivery.
pub proof fn lemma_response_outcome_of_bytes_alone(a: ResponseParser, b: ResponseParser)
    requires
        a.bytes() == b.bytes(),
        a.header_capacity() == b.header_capacity(),
    ensures
        a.outcome() == b.outcome(),
{
}

/// No rescanning beyond the window: across all resumptions the terminator
/// scanner has inspected at most one byte per byte received plus one byte
/// per resumption — linear in the head's size even under one-byte-per-chunk
/// delivery, never quadratic.
pub proof fn lemma_response_scan_work_linear(p: ResponseParser)
    requires
        p.wf(),
    ensures
        p.scan_work() <= p.bytes().len() + p.resumptions(),
{
}

/// Idempotent leftover boundary: once a response head is complete, the
/// consumed length points exactly one byte past the LF that terminates the
/// empty line, and never past the bytes received; the leftover is exactly
/// the bytes from it on.
pub proof fn lemma_response_leftover_boundary(p: ResponseParser)
    requires
        p.wf(),
        p.is_done(),
    ensures
        p.outcome() is Complete,
        0 < p.consumed_len() <= p.bytes().len(),
        p.consumed_len() == p.outcome()->Complete_0.consumed,
        p.bytes()[p.consumed_len() - 1] == 10u8,
        p.bytes() == p.bytes().subrange(0, p.consumed_len()) + p.bytes().subrange(
            p.consumed_len(),
            p.bytes().len() as int,
        ),
{
    lemma_consumed_boundary(MessageKind::Response, p.bytes(), p.header_capacity() as int);
    assert(p.bytes() =~= p.bytes().subrange(0, p.consumed_len()) + p.bytes().subrange(
        p.consumed_len(),
        p.bytes().len() as int,
    ));
}

} // verus!
