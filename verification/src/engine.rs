//! The resumable parse engine shared by request and response parsing.
//!
//! The engine owns the accumulated buffer and a cursor pair: `pos`, the
//! start of the line being recognized, and `probe`, the watermark up to
//! which the scanner has confirmed that no line terminator occurs. Each
//! `advance` resumes scanning at the watermark, so across all resumptions
//! no confirmed byte is re-examined; the ghost field `work` counts every
//! byte the terminator scan inspects and is bounded by the buffer length
//! plus the number of resumptions.
//!
//! The engine's contract ties every outcome to `parse_head` of the bytes
//! received so far, making the result independent of chunk boundaries.

use vstd::prelude::*;

use crate::Span;
use crate::Header;
use crate::grammar::no_eol;
use crate::grammar::line_at;
use crate::grammar::MessageKind;
use crate::grammar::HeadModel;
use crate::grammar::HeadersOutcome;
use crate::grammar::HeadOutcome;
use crate::grammar::first_line_ok;
use crate::grammar::head_model;
use crate::grammar::parse_headers;
use crate::grammar::parse_head;
use crate::grammar::req_method;
use crate::grammar::req_target;
use crate::grammar::req_major;
use crate::grammar::req_minor;
use crate::grammar::status_major;
use crate::grammar::status_minor;
use crate::grammar::status_code;
use crate::grammar::status_reason;
use crate::grammar::header_chain;
use crate::grammar::lemma_eol_from_bounds;
use crate::grammar::lemma_header_chain_snoc;
use crate::grammar::lemma_header_chain_resume;
use crate::grammar::lemma_header_chain_prefix;
use crate::grammar::lemma_line_at_prefix;
use crate::grammar::lemma_subrange_prefix;
use crate::grammar::lemma_head_terminal_stable;
use crate::scan::ScanLine;
use crate::scan::scan_line;
use crate::scan::parse_request_line;
use crate::scan::parse_status_line;
use crate::scan::parse_header_line;

verus! {

/// Where the engine stands between resumptions.
#[derive(Clone, Copy)]
pub(crate) enum EngineState {
    FirstLine,
    InHeaders,
    Done,
    Failed,
}

/// What one resumption of the engine reports.
pub(crate) enum Step {
    Complete,
    NeedMore,
    Full,
    Malformed,
    TooMany,
}

/// Copy a vector of header spans, for the assembled result.
pub(crate) fn copy_headers(v: &Vec<Header>) -> (r: Vec<Header>)
    ensures
        r@ == v@,
{
    let mut r: Vec<Header> = Vec::new();
    let mut i: usize = 0;
    while i < v.len()
        invariant
            i <= v@.len(),
            r@ == v@.subrange(0, i as int),
        decreases v@.len() - i,
    {
        r.push(v[i]);
        proof {
            assert(r@ =~= v@.subrange(0, i + 1));
        }
        i = i + 1;
    }
    proof {
        assert(r@ =~= v@);
    }
    r
}

/// Copy the bytes `v[start..end]` out of the buffer.
pub(crate) fn copy_range(v: &Vec<u8>, start: usize, end: usize) -> (r: Vec<u8>)
    requires
        start <= end <= v@.len(),
    ensures
        r@ == v@.subrange(start as int, end as int),
{
    let mut r: Vec<u8> = Vec::new();
    let mut i: usize = start;
    while i < end
        invariant
            start <= i <= end <= v@.len(),
            r@ == v@.subrange(start as int, i as int),
        decreases end - i,
    {
        r.push(v[i]);
        proof {
            assert(r@ =~= v@.subrange(start as int, i + 1));
        }
        i = i + 1;
    }
    r
}

/// The headers that a sequence of spans denotes within buffer contents `s`.
pub(crate) open spec fn hdrs_of(headers: Seq<Header>, s: Seq<u8>) -> Seq<(Seq<u8>, Seq<u8>)> {
    headers.map_values(|h: Header| (h.0.slice_of(s), h.1.slice_of(s)))
}

/// The resumable parse engine.
pub(crate) struct Engine {
    pub kind: MessageKind,
    pub buf: Vec<u8>,
    pub cap: usize,
    pub hcap: usize,
    pub state: EngineState,
    pub pos: usize,
    pub probe: usize,
    pub major: u8,
    pub minor: u8,
    pub method: Span,
    pub path: Span,
    pub status: u16,
    pub reason: Span,
    pub headers: Vec<Header>,
    pub consumed: usize,
    pub work: Ghost<nat>,
    pub rounds: Ghost<nat>,
}

impl Engine {
    /// The headers recognized so far, as byte sequences.
    pub(crate) open spec fn hdrs(self) -> Seq<(Seq<u8>, Seq<u8>)> {
        hdrs_of(self.headers@, self.buf@)
    }

    /// The structured head the stored fields denote.
    pub(crate) open spec fn model(self) -> HeadModel {
        HeadModel {
            major: self.major,
            minor: self.minor,
            method: self.method.slice_of(self.buf@),
            path: self.path.slice_of(self.buf@),
            status: self.status,
            reason: self.reason.slice_of(self.buf@),
            headers: self.hdrs(),
            consumed: self.consumed as int,
        }
    }

    /// All stored spans lie within the buffer.
    pub(crate) open spec fn spans_ok(self) -> bool {
        &&& self.method.in_bounds(self.buf@)
        &&& self.path.in_bounds(self.buf@)
        &&& self.reason.in_bounds(self.buf@)
        &&& forall|k: int|
            0 <= k < self.headers@.len() ==> (#[trigger] self.headers@[k]).0.in_bounds(self.buf@)
                && self.headers@[k].1.in_bounds(self.buf@)
    }

    /// The stored first-line fields agree with the first-line content `c`.
    pub(crate) open spec fn fl_matches(self, c: Seq<u8>) -> bool {
        match self.kind {
            MessageKind::Request => {
                &&& self.major == req_major(c)
                &&& self.minor == req_minor(c)
                &&& self.method.slice_of(self.buf@) == req_method(c)
                &&& self.path.slice_of(self.buf@) == req_target(c)
                &&& self.status == 0
                &&& self.reason.slice_of(self.buf@) == Seq::<u8>::empty()
            },
            MessageKind::Response => {
                &&& self.major == status_major(c)
                &&& self.minor == status_minor(c)
                &&& self.status == status_code(c)
                &&& self.reason.slice_of(self.buf@) == status_reason(c)
                &&& self.method.slice_of(self.buf@) == Seq::<u8>::empty()
                &&& self.path.slice_of(self.buf@) == Seq::<u8>::empty()
            },
        }
    }

    /// Where the first line's content ends.
    pub(crate) open spec fn fl_end(self) -> int {
        line_at(self.buf@, 0)->Line_end
    }

    /// Where the bytes after the first line's terminator start.
    pub(crate) open spec fn fl_next(self) -> int {
        line_at(self.buf@, 0)->Line_next
    }

    /// The first line is fully recognized and its fields stored.
    pub(crate) open spec fn first_line_done(self) -> bool {
        &&& line_at(self.buf@, 0) is Line
        &&& first_line_ok(self.kind, self.buf@.subrange(0, self.fl_end()))
        &&& self.fl_matches(self.buf@.subrange(0, self.fl_end()))
    }

    /// The engine still accepts resumptions.
    pub(crate) open spec fn is_running(self) -> bool {
        self.state is FirstLine || self.state is InHeaders
    }

    /// The engine's invariant.
    pub(crate) open spec fn wf(self) -> bool {
        &&& self.buf@.len() <= self.cap
        &&& self.work@ <= self.probe + self.rounds@
        &&& self.probe <= self.buf@.len()
        &&& match self.state {
            EngineState::FirstLine => {
                &&& self.pos == 0
                &&& self.headers@.len() == 0
                &&& self.pos <= self.probe
                &&& no_eol(self.buf@, self.pos as int, self.probe as int)
                &&& self.status == 0
                &&& self.method == (Span { off: 0, len: 0 })
                &&& self.path == (Span { off: 0, len: 0 })
                &&& self.reason == (Span { off: 0, len: 0 })
            },
            EngineState::InHeaders => {
                &&& self.first_line_done()
                &&& 0 <= self.fl_next() <= self.pos
                &&& self.pos <= self.probe
                &&& no_eol(self.buf@, self.pos as int, self.probe as int)
                &&& header_chain(self.buf@, self.fl_next(), self.pos as int, self.hdrs())
                &&& self.headers@.len() <= self.hcap
                &&& self.spans_ok()
            },
            EngineState::Done => {
                &&& parse_head(self.kind, self.buf@, self.hcap as int) == HeadOutcome::Complete(
                    self.model(),
                )
                &&& self.spans_ok()
                &&& self.consumed <= self.buf@.len()
            },
            EngineState::Failed => true,
        }
    }

    /// A fresh engine for one head of kind `kind`, with a byte budget of
    /// `cap` and room for `hcap` headers.
    pub(crate) fn new(kind: MessageKind, cap: usize, hcap: usize) -> (r: Engine)
        ensures
            r.wf(),
            r.is_running(),
            r.buf@ == Seq::<u8>::empty(),
            r.kind == kind,
            r.cap == cap,
            r.hcap == hcap,
            r.rounds@ == 0,
    {
        Engine {
            kind,
            buf: Vec::new(),
            cap,
            hcap,
            state: EngineState::FirstLine,
            pos: 0,
            probe: 0,
            major: 0,
            minor: 0,
            method: Span { off: 0, len: 0 },
            path: Span { off: 0, len: 0 },
            status: 0,
            reason: Span { off: 0, len: 0 },
            headers: Vec::new(),
            consumed: 0,
            work: Ghost(0),
            rounds: Ghost(0),
        }
    }

    /// Append as much of `chunk` as the byte budget admits; the count
    /// appended is returned, short exactly when the budget is exhausted.
    pub(crate) fn feed(&mut self, chunk: &[u8]) -> (n: usize)
        requires
            old(self).wf(),
        ensures
            final(self).wf(),
            chunk@.len() <= old(self).cap - old(self).buf@.len() ==> n == chunk@.len(),
            chunk@.len() > old(self).cap - old(self).buf@.len() ==> n == old(self).cap - old(self).buf@.len(),
            final(self).buf@ == old(self).buf@ + chunk@.subrange(0, n as int),
            final(self).state == old(self).state,
            final(self).kind == old(self).kind,
            final(self).cap == old(self).cap,
            final(self).hcap == old(self).hcap,
            final(self).pos == old(self).pos,
            final(self).probe == old(self).probe,
            final(self).consumed == old(self).consumed,
            final(self).headers@ == old(self).headers@,
            final(self).rounds@ == old(self).rounds@,
            old(self).state is Done ==> final(self).model() == old(self).model(),
    {
        let avail = self.cap - self.buf.len();
        let n = if chunk.len() < avail {
            chunk.len()
        } else {
            avail
        };
        let ghost s0 = self.buf@;
        let mut i: usize = 0;
        while i < n
            invariant
                i <= n,
                n <= chunk@.len(),
                s0.len() + n <= self.cap,
                self.buf@ == s0 + chunk@.subrange(0, i as int),
                self.kind == old(self).kind,
                self.cap == old(self).cap,
                self.hcap == old(self).hcap,
                self.state == old(self).state,
                self.pos == old(self).pos,
                self.probe == old(self).probe,
                self.major == old(self).major,
                self.minor == old(self).minor,
                self.method == old(self).method,
                self.path == old(self).path,
                self.status == old(self).status,
                self.reason == old(self).reason,
                self.headers@ == old(self).headers@,
                self.consumed == old(self).consumed,
                self.work@ == old(self).work@,
                self.rounds@ == old(self).rounds@,
            decreases n - i,
        {
            let b = chunk[i];
            self.buf.push(b);
            i = i + 1;
            proof {
                assert(self.buf@ =~= s0 + chunk@.subrange(0, i as int));
            }
        }
        proof {
            let t = self.buf@;
            assert(s0 =~= t.subrange(0, s0.len() as int));
            assert(s0.is_prefix_of(t));
            assert(forall|k: int| 0 <= k < s0.len() ==> t[k] == s0[k]);
            self.lemma_feed_wf(*old(self), s0, t);
        }
        n
    }

    /// The invariant survives appending bytes: recognized structure never
    /// moves.
    proof fn lemma_feed_wf(&self, pre: Engine, s0: Seq<u8>, t: Seq<u8>)
        requires
            pre.wf(),
            s0 == pre.buf@,
            t == self.buf@,
            s0.is_prefix_of(t),
            t.len() <= self.cap,
            self.kind == pre.kind,
            self.cap == pre.cap,
            self.hcap == pre.hcap,
            self.state == pre.state,
            self.pos == pre.pos,
            self.probe == pre.probe,
            self.major == pre.major,
            self.minor == pre.minor,
            self.method == pre.method,
            self.path == pre.path,
            self.status == pre.status,
            self.reason == pre.reason,
            self.headers@ == pre.headers@,
            self.consumed == pre.consumed,
            self.work@ == pre.work@,
            self.rounds@ == pre.rounds@,
        ensures
            self.wf(),
            pre.state is Done ==> self.model() == pre.model(),
    {
        assert(forall|k: int| 0 <= k < s0.len() ==> t[k] == s0[k]);
        match pre.state {
            EngineState::FirstLine => {
                assert(no_eol(t, self.pos as int, self.probe as int));
            },
            EngineState::InHeaders => {
                self.lemma_carry_over(pre, s0, t);
                assert(no_eol(t, self.pos as int, self.probe as int));
                lemma_header_chain_prefix(s0, t, pre.fl_next(), pre.pos as int, pre.hdrs());
            },
            EngineState::Done => {
                self.lemma_carry_over(pre, s0, t);
                lemma_head_terminal_stable(pre.kind, s0, t, pre.hcap as int);
                assert(self.model() =~= pre.model());
            },
            EngineState::Failed => {},
        }
    }

    /// Stored spans and first-line facts carry over to an extended buffer.
    proof fn lemma_carry_over(&self, pre: Engine, s0: Seq<u8>, t: Seq<u8>)
        requires
            s0 == pre.buf@,
            t == self.buf@,
            s0.is_prefix_of(t),
            pre.spans_ok(),
            self.kind == pre.kind,
            self.major == pre.major,
            self.minor == pre.minor,
            self.method == pre.method,
            self.path == pre.path,
            self.status == pre.status,
            self.reason == pre.reason,
            self.headers@ == pre.headers@,
            pre.state is InHeaders || pre.state is Done,
            pre.state is InHeaders ==> pre.first_line_done(),
        ensures
            self.spans_ok(),
            self.hdrs() == pre.hdrs(),
            self.method.slice_of(t) == pre.method.slice_of(s0),
            self.path.slice_of(t) == pre.path.slice_of(s0),
            self.reason.slice_of(t) == pre.reason.slice_of(s0),
            pre.state is InHeaders ==> self.first_line_done() && self.fl_next() == pre.fl_next(),
    {
        lemma_subrange_prefix(
            s0,
            t,
            pre.method.off as int,
            pre.method.off + pre.method.len,
        );
        lemma_subrange_prefix(s0, t, pre.path.off as int, pre.path.off + pre.path.len);
        lemma_subrange_prefix(
            s0,
            t,
            pre.reason.off as int,
            pre.reason.off + pre.reason.len,
        );
        assert forall|k: int| 0 <= k < pre.headers@.len() implies (
        #[trigger] pre.headers@[k]).0.slice_of(t) == pre.headers@[k].0.slice_of(s0)
            && pre.headers@[k].1.slice_of(t) == pre.headers@[k].1.slice_of(s0) by {
            lemma_subrange_prefix(
                s0,
                t,
                pre.headers@[k].0.off as int,
                pre.headers@[k].0.off + pre.headers@[k].0.len,
            );
            lemma_subrange_prefix(
                s0,
                t,
                pre.headers@[k].1.off as int,
                pre.headers@[k].1.off + pre.headers@[k].1.len,
            );
        }
        assert(self.hdrs() =~= pre.hdrs());
        if pre.state is InHeaders {
            lemma_eol_from_bounds(s0, 0);
            lemma_line_at_prefix(s0, t, 0);
            lemma_subrange_prefix(s0, t, 0, pre.fl_end());
        }
    }

    /// Resume scanning. Every outcome is tied to `parse_head` of all bytes
    /// received so far; the watermark never moves backwards.
    #[verifier::loop_isolation(false)]
    pub(crate) fn advance(&mut self) -> (r: Step)
        requires
            old(self).wf(),
            old(self).is_running(),
        ensures
            final(self).wf(),
            final(self).buf@ == old(self).buf@,
            final(self).kind == old(self).kind,
            final(self).cap == old(self).cap,
            final(self).hcap == old(self).hcap,
            final(self).rounds@ == old(self).rounds@ + 1,
            final(self).probe >= old(self).probe,
            match r {
                Step::Complete => parse_head(
                    old(self).kind,
                    old(self).buf@,
                    old(self).hcap as int,
                ) == HeadOutcome::Complete(final(self).model()) && final(self).state is Done
                    && final(self).consumed == final(self).model().consumed,
                Step::NeedMore => parse_head(old(self).kind, old(self).buf@, old(self).hcap as int)
                    is Incomplete && old(self).buf@.len() < old(self).cap
                    && final(self).is_running(),
                Step::Full => parse_head(old(self).kind, old(self).buf@, old(self).hcap as int)
                    is Incomplete && old(self).buf@.len() == old(self).cap && final(self).state
                    is Failed,
                Step::Malformed => parse_head(old(self).kind, old(self).buf@, old(self).hcap as int)
                    is Malformed && final(self).state is Failed,
                Step::TooMany => parse_head(old(self).kind, old(self).buf@, old(self).hcap as int)
                    is TooManyHeaders && final(self).state is Failed,
            },
    {
        proof {
            self.rounds@ = self.rounds@ + 1;
        }
        let ghost s = self.buf@;
        loop
            invariant
                self.wf(),
                self.is_running(),
                self.buf@ == s,
                s == old(self).buf@,
                self.kind == old(self).kind,
                self.cap == old(self).cap,
                self.hcap == old(self).hcap,
                self.rounds@ == old(self).rounds@ + 1,
                self.work@ + 1 <= self.probe + self.rounds@,
                self.probe >= old(self).probe,
            decreases self.buf@.len() - self.pos,
        {
            let ghost pre = *self;
            let (sl, cost) = scan_line(&self.buf, self.pos, self.probe);
            match sl {
                ScanLine::NeedMore { probe: p } => {
                    proof {
                        self.work@ = self.work@ + cost@;
                    }
                    self.probe = p;
                    proof {
                        if pre.state is InHeaders {
                            lemma_header_chain_resume(
                                s,
                                pre.fl_next(),
                                pre.pos as int,
                                pre.hdrs(),
                                pre.hcap as int,
                            );
                        }
                        assert(parse_head(self.kind, s, self.hcap as int) is Incomplete);
                    }
                    if self.buf.len() == self.cap {
                        self.state = EngineState::Failed;
                        return Step::Full;
                    }
                    return Step::NeedMore;
                },
                ScanLine::Bad => {
                    proof {
                        self.work@ = self.work@ + cost@;
                    }
                    self.probe = self.buf.len();
                    self.state = EngineState::Failed;
                    proof {
                        if pre.state is InHeaders {
                            lemma_header_chain_resume(
                                s,
                                pre.fl_next(),
                                pre.pos as int,
                                pre.hdrs(),
                                pre.hcap as int,
                            );
                        }
                        assert(parse_head(self.kind, s, self.hcap as int) is Malformed);
                    }
                    return Step::Malformed;
                },
                ScanLine::Line { end, next } => {
                    proof {
                        self.work@ = self.work@ + cost@;
                    }
                    match self.state {
                        EngineState::FirstLine => {
                            let recognized: bool;
                            match self.kind {
                                MessageKind::Request => {
                                    match parse_request_line(&self.buf, self.pos, end) {
                                        Some(rl) => {
                                            self.method = rl.method;
                                            self.path = rl.path;
                                            self.major = rl.major;
                                            self.minor = rl.minor;
                                            recognized = true;
                                        },
                                        None => {
                                            recognized = false;
                                        },
                                    }
                                },
                                MessageKind::Response => {
                                    match parse_status_line(&self.buf, self.pos, end) {
                                        Some(stl) => {
                                            self.status = stl.status;
                                            self.reason = stl.reason;
                                            self.major = stl.major;
                                            self.minor = stl.minor;
                                            recognized = true;
                                        },
                                        None => {
                                            recognized = false;
                                        },
                                    }
                                },
                            }
                            if !recognized {
                                self.probe = next;
                                self.state = EngineState::Failed;
                                proof {
                                    assert(parse_head(self.kind, s, self.hcap as int)
                                        is Malformed);
                                }
                                return Step::Malformed;
                            }
                            self.pos = next;
                            self.probe = next;
                            self.state = EngineState::InHeaders;
                            proof {
                                assert((Span { off: 0, len: 0 }).slice_of(s)
                                    =~= Seq::<u8>::empty());
                                assert(no_eol(s, next as int, next as int));
                                assert(self.hdrs() =~= Seq::<(Seq<u8>, Seq<u8>)>::empty());
                                assert(header_chain(s, next as int, next as int, self.hdrs()));
                                assert(self.first_line_done());
                            }
                        },
                        EngineState::InHeaders => {
                            if end == self.pos {
                                // the empty line: the head is complete
                                self.consumed = next;
                                self.pos = next;
                                self.probe = next;
                                self.state = EngineState::Done;
                                proof {
                                    let left = self.hcap - pre.hdrs().len();
                                    assert(parse_headers(s, pre.pos as int, left)
                                        == (HeadersOutcome::Complete {
                                        headers: Seq::empty(),
                                        consumed: next as int,
                                    }));
                                    lemma_header_chain_resume(
                                        s,
                                        pre.fl_next(),
                                        pre.pos as int,
                                        pre.hdrs(),
                                        pre.hcap as int,
                                    );
                                    assert(pre.hdrs() + Seq::<(Seq<u8>, Seq<u8>)>::empty()
                                        =~= pre.hdrs());
                                    let c = s.subrange(0, pre.fl_end());
                                    assert(self.model() =~= head_model(
                                        self.kind,
                                        c,
                                        pre.hdrs(),
                                        next as int,
                                    ));
                                    assert(parse_head(self.kind, s, self.hcap as int)
                                        == HeadOutcome::Complete(self.model()));
                                }
                                return Step::Complete;
                            }
                            match parse_header_line(&self.buf, self.pos, end) {
                                None => {
                                    self.probe = next;
                                    self.state = EngineState::Failed;
                                    proof {
                                        let left = self.hcap - pre.hdrs().len();
                                        assert(parse_headers(s, pre.pos as int, left)
                                            is Malformed);
                                        lemma_header_chain_resume(
                                            s,
                                            pre.fl_next(),
                                            pre.pos as int,
                                            pre.hdrs(),
                                            pre.hcap as int,
                                        );
                                        assert(parse_head(self.kind, s, self.hcap as int)
                                            is Malformed);
                                    }
                                    return Step::Malformed;
                                },
                                Some(h) => {
                                    if self.headers.len() == self.hcap {
                                        self.probe = next;
                                        self.state = EngineState::Failed;
                                        proof {
                                            assert(parse_headers(s, pre.pos as int, 0)
                                                is TooManyHeaders);
                                            lemma_header_chain_resume(
                                                s,
                                                pre.fl_next(),
                                                pre.pos as int,
                                                pre.hdrs(),
                                                pre.hcap as int,
                                            );
                                            assert(parse_head(self.kind, s, self.hcap as int)
                                                is TooManyHeaders);
                                        }
                                        return Step::TooMany;
                                    }
                                    self.headers.push(h);
                                    self.pos = next;
                                    self.probe = next;
                                    proof {
                                        let hv = (
                                            h.0.slice_of(s),
                                            h.1.slice_of(s),
                                        );
                                        assert(self.hdrs() =~= pre.hdrs().push(hv));
                                        lemma_header_chain_snoc(
                                            s,
                                            pre.fl_next(),
                                            pre.pos as int,
                                            pre.hdrs(),
                                            end as int,
                                            next as int,
                                        );
                                        assert(no_eol(s, next as int, next as int));
                                    }
                                },
                            }
                        },
                        _ => {
                            proof {
                                assert(false);
                            }
                            return Step::NeedMore;
                        },
                    }
                },
            }
        }
    }
}

} // verus!
