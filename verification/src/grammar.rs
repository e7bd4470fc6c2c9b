//! The mathematical model of the HTTP/1.x head grammar.
//!
//! Everything here is specification: a head is a first line (request line or
//! status line), then header lines, then an empty line. A line ends at CRLF,
//! or at a bare LF, which is accepted leniently. `parse_head` maps a byte
//! sequence to the one outcome the grammar allows: the structured head and
//! the consumed length, "need more bytes", malformed input, or a header
//! count beyond capacity.

use vstd::prelude::*;

verus! {

/// Carriage return or line feed.
pub open spec fn is_eol_byte(b: u8) -> bool {
    b == 13u8 || b == 10u8
}

/// Horizontal whitespace: space or tab.
pub open spec fn is_ws(b: u8) -> bool {
    b == 32u8 || b == 9u8
}

/// ASCII decimal digit.
pub open spec fn is_digit(b: u8) -> bool {
    48u8 <= b && b <= 57u8
}

/// HTTP token characters, allowed in methods and header names.
pub open spec fn is_tchar(b: u8) -> bool {
    ||| 48u8 <= b && b <= 57u8
    ||| 65u8 <= b && b <= 90u8
    ||| 97u8 <= b && b <= 122u8
    ||| b == 33u8
    ||| 35u8 <= b && b <= 39u8
    ||| b == 42u8 || b == 43u8 || b == 45u8 || b == 46u8
    ||| 94u8 <= b && b <= 96u8
    ||| b == 124u8 || b == 126u8
}

/// Bytes allowed in a request target: anything but whitespace and controls.
pub open spec fn is_target_byte(b: u8) -> bool {
    b >= 33u8 && b != 127u8
}

/// No CR or LF occurs at positions `i..j` of `s`.
pub open spec fn no_eol(s: Seq<u8>, i: int, j: int) -> bool {
    forall|k: int| i <= k < j ==> !is_eol_byte(s[k])
}

/// The first index at or after `i` holding byte `b`; `s.len()` when none does.
pub open spec fn find_from(s: Seq<u8>, i: int, b: u8) -> int
    decreases s.len() - i,
{
    if i < 0 || i >= s.len() {
        s.len() as int
    } else if s[i] == b {
        i
    } else {
        find_from(s, i + 1, b)
    }
}

/// The first index at or after `i` holding CR or LF; `s.len()` when none does.
pub open spec fn eol_from(s: Seq<u8>, i: int) -> int
    decreases s.len() - i,
{
    if i < 0 || i >= s.len() {
        s.len() as int
    } else if is_eol_byte(s[i]) {
        i
    } else {
        eol_from(s, i + 1)
    }
}

/// The first index at or after `i` holding a byte that is not horizontal
/// whitespace; `s.len()` when none does.
pub open spec fn ws_fwd(s: Seq<u8>, i: int) -> int
    decreases s.len() - i,
{
    if i < 0 || i >= s.len() {
        s.len() as int
    } else if is_ws(s[i]) {
        ws_fwd(s, i + 1)
    } else {
        i
    }
}

/// The end of `s[lo..j]` once trailing horizontal whitespace is dropped.
pub open spec fn ws_back(s: Seq<u8>, lo: int, j: int) -> int
    decreases j - lo,
{
    if j <= lo {
        lo
    } else if is_ws(s[j - 1]) {
        ws_back(s, lo, j - 1)
    } else {
        j
    }
}

/// What scanning for one line, starting at a position, can yield: the line's
/// content ends at `end` and its terminator ends at `next`; or the terminator
/// has not arrived yet; or a CR is followed by a byte other than LF.
pub enum LineScan {
    NeedMore,
    Bad,
    Line { end: int, next: int },
}

/// The line of `s` that starts at `i`.
pub open spec fn line_at(s: Seq<u8>, i: int) -> LineScan {
    let e = eol_from(s, i);
    if e >= s.len() {
        LineScan::NeedMore
    } else if s[e] == 10u8 {
        LineScan::Line { end: e, next: e + 1 }
    } else if e + 1 >= s.len() {
        LineScan::NeedMore
    } else if s[e + 1] == 10u8 {
        LineScan::Line { end: e, next: e + 2 }
    } else {
        LineScan::Bad
    }
}

/// Position of the space after the method in a request-line content `c`.
pub open spec fn req_sp1(c: Seq<u8>) -> int {
    find_from(c, 0, 32u8)
}

/// Position of the space after the target in a request-line content `c`.
pub open spec fn req_sp2(c: Seq<u8>) -> int {
    find_from(c, req_sp1(c) + 1, 32u8)
}

/// The literal `HTTP/<digit>.<digit>` fills `c` from `i` to its end.
pub open spec fn version_tail_ok(c: Seq<u8>, i: int) -> bool {
    &&& c.len() == i + 8
    &&& c[i] == 72u8
    &&& c[i + 1] == 84u8
    &&& c[i + 2] == 84u8
    &&& c[i + 3] == 80u8
    &&& c[i + 4] == 47u8
    &&& is_digit(c[i + 5])
    &&& c[i + 6] == 46u8
    &&& is_digit(c[i + 7])
}

/// `c` is a well-formed request-line content:
/// `METHOD SP TARGET SP HTTP/<major>.<minor>`.
pub open spec fn req_line_ok(c: Seq<u8>) -> bool {
    let sp1 = req_sp1(c);
    let sp2 = req_sp2(c);
    &&& 0 < sp1 < c.len()
    &&& (forall|k: int| 0 <= k < sp1 ==> is_tchar(c[k]))
    &&& sp1 + 1 < sp2 < c.len()
    &&& (forall|k: int| sp1 + 1 <= k < sp2 ==> is_target_byte(c[k]))
    &&& version_tail_ok(c, sp2 + 1)
}

/// The method bytes of a request-line content.
pub open spec fn req_method(c: Seq<u8>) -> Seq<u8> {
    c.subrange(0, req_sp1(c))
}

/// The target bytes of a request-line content.
pub open spec fn req_target(c: Seq<u8>) -> Seq<u8> {
    c.subrange(req_sp1(c) + 1, req_sp2(c))
}

/// The major version digit of a request-line content.
pub open spec fn req_major(c: Seq<u8>) -> u8 {
    (c[req_sp2(c) + 6] - 48) as u8
}

/// The minor version digit of a request-line content.
pub open spec fn req_minor(c: Seq<u8>) -> u8 {
    (c[req_sp2(c) + 8] - 48) as u8
}

/// `c` is a well-formed status-line content:
/// `HTTP/<major>.<minor> SP <3 digits>` followed by nothing, or by
/// `SP <reason>`; the reason may be empty.
pub open spec fn status_line_ok(c: Seq<u8>) -> bool {
    &&& c.len() >= 12
    &&& c[0] == 72u8
    &&& c[1] == 84u8
    &&& c[2] == 84u8
    &&& c[3] == 80u8
    &&& c[4] == 47u8
    &&& is_digit(c[5])
    &&& c[6] == 46u8
    &&& is_digit(c[7])
    &&& c[8] == 32u8
    &&& is_digit(c[9])
    &&& is_digit(c[10])
    &&& is_digit(c[11])
    &&& (c.len() == 12 || c[12] == 32u8)
}

/// The major version digit of a status-line content.
pub open spec fn status_major(c: Seq<u8>) -> u8 {
    (c[5] - 48) as u8
}

/// The minor version digit of a status-line content.
pub open spec fn status_minor(c: Seq<u8>) -> u8 {
    (c[7] - 48) as u8
}

/// The three-digit status code of a status-line content.
pub open spec fn status_code(c: Seq<u8>) -> u16 {
    (100 * (c[9] - 48) + 10 * (c[10] - 48) + (c[11] - 48)) as u16
}

/// The reason bytes of a status-line content.
pub open spec fn status_reason(c: Seq<u8>) -> Seq<u8> {
    if c.len() == 12 {
        Seq::empty()
    } else {
        c.subrange(13, c.len() as int)
    }
}

/// Position of the colon in a header-line content `c`.
pub open spec fn hdr_colon(c: Seq<u8>) -> int {
    find_from(c, 0, 58u8)
}

/// `c` is a well-formed header-line content: a non-empty run of token
/// characters, a colon, then the value. A folded continuation line or a line
/// without a colon is not well-formed.
pub open spec fn header_line_ok(c: Seq<u8>) -> bool {
    let col = hdr_colon(c);
    &&& 0 < col < c.len()
    &&& (forall|k: int| 0 <= k < col ==> is_tchar(c[k]))
}

/// Start of the value in a header-line content, after optional whitespace.
pub open spec fn hdr_vstart(c: Seq<u8>) -> int {
    ws_fwd(c, hdr_colon(c) + 1)
}

/// End of the value in a header-line content, before trailing whitespace.
pub open spec fn hdr_vend(c: Seq<u8>) -> int {
    ws_back(c, hdr_vstart(c), c.len() as int)
}

/// The name bytes of a header-line content.
pub open spec fn hdr_name(c: Seq<u8>) -> Seq<u8> {
    c.subrange(0, hdr_colon(c))
}

/// The value bytes of a header-line content, whitespace trimmed.
pub open spec fn hdr_value(c: Seq<u8>) -> Seq<u8> {
    c.subrange(hdr_vstart(c), hdr_vend(c))
}

/// Which first-line grammar a head uses.
#[derive(Clone, Copy, Debug, PartialEq, Eq, Structural)]
pub enum MessageKind {
    Request,
    Response,
}

/// The structured content of a complete head. For a request the status is 0
/// and the reason empty; for a response the method and path are empty.
#[verifier::ext_equal]
pub struct HeadModel {
    pub major: u8,
    pub minor: u8,
    pub method: Seq<u8>,
    pub path: Seq<u8>,
    pub status: u16,
    pub reason: Seq<u8>,
    pub headers: Seq<(Seq<u8>, Seq<u8>)>,
    pub consumed: int,
}

/// Outcome of parsing the header section alone.
pub enum HeadersOutcome {
    Complete { headers: Seq<(Seq<u8>, Seq<u8>)>, consumed: int },
    Incomplete,
    Malformed,
    TooManyHeaders,
}

/// Outcome of parsing a whole head.
pub enum HeadOutcome {
    Complete(HeadModel),
    Incomplete,
    Malformed,
    TooManyHeaders,
}

/// `c` parses as the first line of a head of kind `kind`.
pub open spec fn first_line_ok(kind: MessageKind, c: Seq<u8>) -> bool {
    match kind {
        MessageKind::Request => req_line_ok(c),
        MessageKind::Response => status_line_ok(c),
    }
}

/// The model assembled from a first-line content, the headers, and the
/// consumed length.
pub open spec fn head_model(
    kind: MessageKind,
    c: Seq<u8>,
    headers: Seq<(Seq<u8>, Seq<u8>)>,
    consumed: int,
) -> HeadModel {
    match kind {
        MessageKind::Request => HeadModel {
            major: req_major(c),
            minor: req_minor(c),
            method: req_method(c),
            path: req_target(c),
            status: 0,
            reason: Seq::empty(),
            headers,
            consumed,
        },
        MessageKind::Response => HeadModel {
            major: status_major(c),
            minor: status_minor(c),
            method: Seq::empty(),
            path: Seq::empty(),
            status: status_code(c),
            reason: status_reason(c),
            headers,
            consumed,
        },
    }
}

/// Parse header lines of `s` starting at `i`, with room for `left` more
/// headers, until the empty line that ends the head.
pub open spec fn parse_headers(s: Seq<u8>, i: int, left: int) -> HeadersOutcome
    decreases s.len() - i,
        when 0 <= i <= s.len()
        via parse_headers_dec
{
    match line_at(s, i) {
        LineScan::NeedMore => HeadersOutcome::Incomplete,
        LineScan::Bad => HeadersOutcome::Malformed,
        LineScan::Line { end, next } => {
            if end == i {
                HeadersOutcome::Complete { headers: Seq::empty(), consumed: next }
            } else if !header_line_ok(s.subrange(i, end)) {
                HeadersOutcome::Malformed
            } else if left <= 0 {
                HeadersOutcome::TooManyHeaders
            } else {
                match parse_headers(s, next, left - 1) {
                    HeadersOutcome::Complete { headers, consumed } => HeadersOutcome::Complete {
                        headers: seq![
                            (hdr_name(s.subrange(i, end)), hdr_value(s.subrange(i, end))),
                        ] + headers,
                        consumed,
                    },
                    o => o,
                }
            }
        },
    }
}

#[via_fn]
proof fn parse_headers_dec(s: Seq<u8>, i: int, left: int) {
    lemma_eol_from_bounds(s, i);
}

/// Parse a whole head of kind `kind` out of `s`, with room for `hcap`
/// headers.
pub open spec fn parse_head(kind: MessageKind, s: Seq<u8>, hcap: int) -> HeadOutcome {
    match line_at(s, 0) {
        LineScan::NeedMore => HeadOutcome::Incomplete,
        LineScan::Bad => HeadOutcome::Malformed,
        LineScan::Line { end, next } => {
            if !first_line_ok(kind, s.subrange(0, end)) {
                HeadOutcome::Malformed
            } else {
                match parse_headers(s, next, hcap) {
                    HeadersOutcome::Complete { headers, consumed } => HeadOutcome::Complete(
                        head_model(kind, s.subrange(0, end), headers, consumed),
                    ),
                    HeadersOutcome::Incomplete => HeadOutcome::Incomplete,
                    HeadersOutcome::Malformed => HeadOutcome::Malformed,
                    HeadersOutcome::TooManyHeaders => HeadOutcome::TooManyHeaders,
                }
            }
        },
    }
}

/// `eol_from` lands between `i` and the length, sees no CR or LF on the way,
/// and stops at one unless there is none.
pub proof fn lemma_eol_from_bounds(s: Seq<u8>, i: int)
    requires
        0 <= i <= s.len(),
    ensures
        i <= eol_from(s, i) <= s.len(),
        no_eol(s, i, eol_from(s, i)),
        eol_from(s, i) < s.len() ==> is_eol_byte(s[eol_from(s, i)]),
    decreases s.len() - i,
{
    if i < s.len() && !is_eol_byte(s[i]) {
        lemma_eol_from_bounds(s, i + 1);
    }
}

/// A position with no CR or LF before it, holding one or past the end, is
/// where `eol_from` lands.
pub proof fn lemma_eol_from_is(s: Seq<u8>, i: int, j: int)
    requires
        0 <= i <= j <= s.len(),
        no_eol(s, i, j),
        j < s.len() ==> is_eol_byte(s[j]),
    ensures
        eol_from(s, i) == j,
    decreases j - i,
{
    if i < j {
        lemma_eol_from_is(s, i + 1, j);
    }
}

/// Characterization of `find_from`, as `lemma_eol_from_is` for `eol_from`.
pub proof fn lemma_find_from_is(s: Seq<u8>, i: int, b: u8, j: int)
    requires
        0 <= i <= j <= s.len(),
        forall|k: int| i <= k < j ==> s[k] != b,
        j < s.len() ==> s[j] == b,
    ensures
        find_from(s, i, b) == j,
    decreases j - i,
{
    if i < j {
        lemma_find_from_is(s, i + 1, b, j);
    }
}

/// `find_from` lands between `i` and the length.
pub proof fn lemma_find_from_bounds(s: Seq<u8>, i: int, b: u8)
    requires
        0 <= i <= s.len(),
    ensures
        i <= find_from(s, i, b) <= s.len(),
    decreases s.len() - i,
{
    if i < s.len() && s[i] != b {
        lemma_find_from_bounds(s, i + 1, b);
    }
}

/// Where `b` does not occur before `j`, `find_from` lands at `j` or later.
pub proof fn lemma_find_from_lower(s: Seq<u8>, i: int, b: u8, j: int)
    requires
        0 <= i <= j <= s.len(),
        forall|k: int| i <= k < j ==> s[k] != b,
    ensures
        find_from(s, i, b) >= j,
    decreases j - i,
{
    if i < j {
        lemma_find_from_lower(s, i + 1, b, j);
    } else {
        lemma_find_from_bounds(s, i, b);
    }
}

/// Characterization of `ws_fwd`.
pub proof fn lemma_ws_fwd_is(s: Seq<u8>, i: int, j: int)
    requires
        0 <= i <= j <= s.len(),
        forall|k: int| i <= k < j ==> is_ws(s[k]),
        j < s.len() ==> !is_ws(s[j]),
    ensures
        ws_fwd(s, i) == j,
    decreases j - i,
{
    if i < j {
        lemma_ws_fwd_is(s, i + 1, j);
    }
}

/// Characterization of `ws_back`.
pub proof fn lemma_ws_back_is(s: Seq<u8>, lo: int, j: int, k: int)
    requires
        0 <= lo <= k <= j,
        forall|m: int| k <= m < j ==> is_ws(s[m]),
        k > lo ==> !is_ws(s[k - 1]),
    ensures
        ws_back(s, lo, j) == k,
    decreases j - k,
{
    if k < j {
        lemma_ws_back_is(s, lo, j - 1, k);
    }
}

/// A found line terminator does not move when bytes are appended.
pub proof fn lemma_eol_from_prefix(s: Seq<u8>, t: Seq<u8>, i: int)
    requires
        s.is_prefix_of(t),
        0 <= i <= s.len(),
        eol_from(s, i) < s.len(),
    ensures
        eol_from(t, i) == eol_from(s, i),
{
    let j = eol_from(s, i);
    lemma_eol_from_bounds(s, i);
    assert(forall|k: int| i <= k < j ==> t[k] == s[k]);
    assert(t[j] == s[j]);
    lemma_eol_from_is(t, i, j);
}

/// A subrange that lies within a prefix reads the same from the extension.
pub proof fn lemma_subrange_prefix(s: Seq<u8>, t: Seq<u8>, a: int, b: int)
    requires
        s.is_prefix_of(t),
        0 <= a <= b <= s.len(),
    ensures
        t.subrange(a, b) == s.subrange(a, b),
{
    assert(t.subrange(a, b) =~= s.subrange(a, b));
}

/// A fully recognized line, and a bad one, stay what they are when bytes are
/// appended; only "need more" can change.
pub proof fn lemma_line_at_prefix(s: Seq<u8>, t: Seq<u8>, i: int)
    requires
        s.is_prefix_of(t),
        0 <= i <= s.len(),
        !(line_at(s, i) is NeedMore),
    ensures
        line_at(t, i) == line_at(s, i),
{
    let e = eol_from(s, i);
    lemma_eol_from_bounds(s, i);
    lemma_eol_from_prefix(s, t, i);
    assert(t[e] == s[e]);
    if s[e] != 10u8 {
        assert(t[e + 1] == s[e + 1]);
    }
}

/// The headers recognized in `s` between positions `i` and `j` are exactly
/// `hs`: one well-formed, non-empty header line after the other, each fully
/// terminated.
pub open spec fn header_chain(s: Seq<u8>, i: int, j: int, hs: Seq<(Seq<u8>, Seq<u8>)>) -> bool
    decreases hs.len(),
{
    if hs.len() == 0 {
        i == j
    } else {
        line_at(s, i) matches LineScan::Line { end, next } && end != i && header_line_ok(
            s.subrange(i, end),
        ) && hs[0] == (hdr_name(s.subrange(i, end)), hdr_value(s.subrange(i, end)))
            && header_chain(s, next, j, hs.drop_first())
    }
}

/// A chain runs forward and stays inside the sequence.
pub proof fn lemma_header_chain_bounds(s: Seq<u8>, i: int, j: int, hs: Seq<(Seq<u8>, Seq<u8>)>)
    requires
        header_chain(s, i, j, hs),
        0 <= i <= s.len(),
    ensures
        i <= j <= s.len(),
    decreases hs.len(),
{
    if hs.len() > 0 {
        lemma_eol_from_bounds(s, i);
        match line_at(s, i) {
            LineScan::Line { end, next } => {
                lemma_header_chain_bounds(s, next, j, hs.drop_first());
            },
            _ => {
                assert(false);
            },
        }
    }
}

/// A chain grows on the right by one more recognized header line.
pub proof fn lemma_header_chain_snoc(
    s: Seq<u8>,
    i: int,
    j: int,
    hs: Seq<(Seq<u8>, Seq<u8>)>,
    end: int,
    next: int,
)
    requires
        header_chain(s, i, j, hs),
        line_at(s, j) == (LineScan::Line { end, next }),
        end != j,
        header_line_ok(s.subrange(j, end)),
    ensures
        header_chain(
            s,
            i,
            next,
            hs.push((hdr_name(s.subrange(j, end)), hdr_value(s.subrange(j, end)))),
        ),
    decreases hs.len(),
{
    let h = (hdr_name(s.subrange(j, end)), hdr_value(s.subrange(j, end)));
    let hs2 = hs.push(h);
    assert(hs2[hs.len() as int] == h);
    if hs.len() == 0 {
        assert(hs2[0] == h);
        assert(hs2.drop_first() =~= Seq::<(Seq<u8>, Seq<u8>)>::empty());
        assert(header_chain(s, next, next, hs2.drop_first()));
    } else {
        match line_at(s, i) {
            LineScan::Line { end: e0, next: n0 } => {
                lemma_header_chain_snoc(s, n0, j, hs.drop_first(), end, next);
                assert(hs2[0] == hs[0]);
                assert(hs2.drop_first() =~= hs.drop_first().push(h));
            },
            _ => {
                assert(false);
            },
        }
    }
}

/// Prefix `hs` onto the headers of an outcome that completed; other outcomes
/// pass through.
pub open spec fn prepend_headers(hs: Seq<(Seq<u8>, Seq<u8>)>, o: HeadersOutcome) -> HeadersOutcome {
    match o {
        HeadersOutcome::Complete { headers, consumed } => HeadersOutcome::Complete {
            headers: hs + headers,
            consumed,
        },
        _ => o,
    }
}

/// Parsing headers from the start of a chain is the chain's headers followed
/// by whatever parsing from the chain's end yields: scanning may resume where
/// it stopped.
pub proof fn lemma_header_chain_resume(
    s: Seq<u8>,
    i: int,
    j: int,
    hs: Seq<(Seq<u8>, Seq<u8>)>,
    left: int,
)
    requires
        header_chain(s, i, j, hs),
        0 <= i <= s.len(),
        hs.len() <= left,
    ensures
        parse_headers(s, i, left) == prepend_headers(hs, parse_headers(s, j, left - hs.len())),
    decreases hs.len(),
{
    lemma_header_chain_bounds(s, i, j, hs);
    if hs.len() == 0 {
        match parse_headers(s, j, left) {
            HeadersOutcome::Complete { headers, consumed } => {
                assert(hs + headers =~= headers);
            },
            _ => {},
        }
    } else {
        match line_at(s, i) {
            LineScan::Line { end, next } => {
                lemma_eol_from_bounds(s, i);
                lemma_header_chain_resume(s, next, j, hs.drop_first(), left - 1);
                let h = (hdr_name(s.subrange(i, end)), hdr_value(s.subrange(i, end)));
                match parse_headers(s, j, left - hs.len()) {
                    HeadersOutcome::Complete { headers, consumed } => {
                        assert(seq![h] + (hs.drop_first() + headers) =~= hs + headers);
                    },
                    _ => {},
                }
            },
            _ => {
                assert(false);
            },
        }
    }
}

/// A chain survives appending bytes to the sequence.
pub proof fn lemma_header_chain_prefix(
    s: Seq<u8>,
    t: Seq<u8>,
    i: int,
    j: int,
    hs: Seq<(Seq<u8>, Seq<u8>)>,
)
    requires
        s.is_prefix_of(t),
        header_chain(s, i, j, hs),
        0 <= i <= s.len(),
    ensures
        header_chain(t, i, j, hs),
    decreases hs.len(),
{
    if hs.len() > 0 {
        lemma_eol_from_bounds(s, i);
        match line_at(s, i) {
            LineScan::Line { end, next } => {
                lemma_line_at_prefix(s, t, i);
                lemma_subrange_prefix(s, t, i, end);
                lemma_header_chain_bounds(s, next, j, hs.drop_first());
                lemma_header_chain_prefix(s, t, next, j, hs.drop_first());
            },
            _ => {
                assert(false);
            },
        }
    }
}

/// Once header parsing has decided, appending bytes cannot change the
/// decision.
pub proof fn lemma_parse_headers_prefix(s: Seq<u8>, t: Seq<u8>, i: int, left: int)
    requires
        s.is_prefix_of(t),
        0 <= i <= s.len(),
        !(parse_headers(s, i, left) is Incomplete),
    ensures
        parse_headers(t, i, left) == parse_headers(s, i, left),
    decreases s.len() - i,
{
    lemma_eol_from_bounds(s, i);
    match line_at(s, i) {
        LineScan::NeedMore => {
            assert(false);
        },
        LineScan::Bad => {
            lemma_line_at_prefix(s, t, i);
        },
        LineScan::Line { end, next } => {
            lemma_line_at_prefix(s, t, i);
            lemma_subrange_prefix(s, t, i, end);
            if end == i {
            } else if !header_line_ok(s.subrange(i, end)) {
            } else if left <= 0 {
            } else {
                lemma_parse_headers_prefix(s, t, next, left - 1);
            }
        },
    }
}

/// Full-buffer equivalence: once the head's outcome is terminal — complete,
/// malformed, or over the header capacity — delivering further bytes leaves
/// the outcome, and with it every recognized token and the consumed length,
/// exactly as it was. Together with the parser contracts, which tie each
/// returned outcome to `parse_head` of all bytes received so far, this makes
/// the result independent of how the input was split into chunks.
pub proof fn lemma_head_terminal_stable(kind: MessageKind, s: Seq<u8>, t: Seq<u8>, hcap: int)
    requires
        s.is_prefix_of(t),
        !(parse_head(kind, s, hcap) is Incomplete),
    ensures
        parse_head(kind, t, hcap) == parse_head(kind, s, hcap),
{
    lemma_eol_from_bounds(s, 0);
    match line_at(s, 0) {
        LineScan::NeedMore => {
            assert(false);
        },
        LineScan::Bad => {
            lemma_line_at_prefix(s, t, 0);
        },
        LineScan::Line { end, next } => {
            lemma_line_at_prefix(s, t, 0);
            lemma_subrange_prefix(s, t, 0, end);
            if first_line_ok(kind, s.subrange(0, end)) {
                lemma_parse_headers_prefix(s, t, next, hcap);
            }
        },
    }
}

/// Helper for the consumed boundary: header parsing that completes ends one
/// byte past the LF of an empty line.
proof fn lemma_parse_headers_consumed(s: Seq<u8>, i: int, left: int)
    requires
        0 <= i <= s.len(),
        parse_headers(s, i, left) is Complete,
    ensures
        i < parse_headers(s, i, left)->Complete_consumed <= s.len(),
        s[parse_headers(s, i, left)->Complete_consumed - 1] == 10u8,
        exists|p: int|
            0 <= p < parse_headers(s, i, left)->Complete_consumed && #[trigger] line_at(s, p)
                == (LineScan::Line { end: p, next: parse_headers(s, i, left)->Complete_consumed }),
    decreases s.len() - i,
{
    lemma_eol_from_bounds(s, i);
    match line_at(s, i) {
        LineScan::Line { end, next } => {
            if end == i {
                assert(s[next - 1] == 10u8);
                assert(line_at(s, i) == (LineScan::Line { end: i, next }));
            } else {
                lemma_parse_headers_consumed(s, next, left - 1);
            }
        },
        _ => {
            assert(false);
        },
    }
}

/// Leftover boundary: a complete head's consumed length points exactly one
/// byte past the LF that terminates the empty line, and never past the bytes
/// received; everything from it on is the caller's leftover.
pub proof fn lemma_consumed_boundary(kind: MessageKind, s: Seq<u8>, hcap: int)
    requires
        parse_head(kind, s, hcap) is Complete,
    ensures
        0 < parse_head(kind, s, hcap)->Complete_0.consumed <= s.len(),
        s[parse_head(kind, s, hcap)->Complete_0.consumed - 1] == 10u8,
        exists|p: int|
            0 <= p < parse_head(kind, s, hcap)->Complete_0.consumed && #[trigger] line_at(s, p) == (
            LineScan::Line { end: p, next: parse_head(kind, s, hcap)->Complete_0.consumed }),
{
    lemma_eol_from_bounds(s, 0);
    match line_at(s, 0) {
        LineScan::Line { end, next } => {
            lemma_parse_headers_consumed(s, next, hcap);
        },
        _ => {
            assert(false);
        },
    }
}

/// A head that completes holds at most as many headers as it was given room
/// for.
pub proof fn lemma_header_count_bounded(kind: MessageKind, s: Seq<u8>, hcap: int)
    requires
        0 <= hcap,
        parse_head(kind, s, hcap) is Complete,
    ensures
        parse_head(kind, s, hcap)->Complete_0.headers.len() <= hcap,
{
    lemma_eol_from_bounds(s, 0);
    match line_at(s, 0) {
        LineScan::Line { end, next } => {
            lemma_parse_headers_count(s, next, hcap);
        },
        _ => {
            assert(false);
        },
    }
}

proof fn lemma_parse_headers_count(s: Seq<u8>, i: int, left: int)
    requires
        0 <= i <= s.len(),
        0 <= left,
        parse_headers(s, i, left) is Complete,
    ensures
        parse_headers(s, i, left)->Complete_headers.len() <= left,
    decreases s.len() - i,
{
    lemma_eol_from_bounds(s, i);
    match line_at(s, i) {
        LineScan::Line { end, next } => {
            if end != i {
                lemma_parse_headers_count(s, next, left - 1);
            }
        },
        _ => {
            assert(false);
        },
    }
}

/// A line whose content has no colon is no header line.
pub proof fn lemma_no_colon_malformed(c: Seq<u8>)
    requires
        forall|k: int| 0 <= k < c.len() ==> c[k] != 58u8,
    ensures
        !header_line_ok(c),
{
    lemma_find_from_lower(c, 0, 58u8, c.len() as int);
}

/// A folded continuation line — content starting with whitespace — is no
/// header line.
pub proof fn lemma_folded_malformed(c: Seq<u8>)
    requires
        c.len() > 0,
        is_ws(c[0]),
    ensures
        !header_line_ok(c),
{
    if 0 < hdr_colon(c) {
        assert(!is_tchar(c[0]));
    }
}

/// A request line with no space after its first one is malformed.
pub proof fn lemma_missing_second_space(c: Seq<u8>)
    requires
        forall|k: int| req_sp1(c) + 1 <= k < c.len() ==> c[k] != 32u8,
        0 <= req_sp1(c) < c.len(),
    ensures
        !req_line_ok(c),
{
    lemma_find_from_lower(c, req_sp1(c) + 1, 32u8, c.len() as int);
}

} // verus!
