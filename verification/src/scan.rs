//! The executable line and token scanner.
//!
//! `scan_line` locates the next line terminator, resuming at a watermark so
//! no confirmed byte is examined twice; the three content parsers recognize
//! a request line, a status line, and a header line, each proved to agree
//! exactly with the grammar model.

use vstd::prelude::*;

use crate::Span;
use crate::Header;
use crate::grammar::is_ws;
use crate::grammar::is_tchar;
use crate::grammar::is_target_byte;
use crate::grammar::no_eol;
use crate::grammar::line_at;
use crate::grammar::LineScan;
use crate::grammar::find_from;
use crate::grammar::ws_fwd;
use crate::grammar::ws_back;
use crate::grammar::req_sp1;
use crate::grammar::req_sp2;
use crate::grammar::req_line_ok;
use crate::grammar::req_method;
use crate::grammar::req_target;
use crate::grammar::req_major;
use crate::grammar::req_minor;
use crate::grammar::status_line_ok;
use crate::grammar::status_major;
use crate::grammar::status_minor;
use crate::grammar::status_code;
use crate::grammar::status_reason;
use crate::grammar::header_line_ok;
use crate::grammar::hdr_vstart;
use crate::grammar::hdr_vend;
use crate::grammar::hdr_name;
use crate::grammar::hdr_value;
use crate::grammar::lemma_eol_from_is;
use crate::grammar::lemma_find_from_is;
use crate::grammar::lemma_find_from_lower;
use crate::grammar::lemma_find_from_bounds;
use crate::grammar::lemma_ws_fwd_is;
use crate::grammar::lemma_ws_back_is;

verus! {

/// What one scan for a line terminator yields: the line's content ends at
/// `end` and the bytes before `next` are consumed by its terminator; or more
/// bytes are needed and scanning may resume at `probe`; or a CR was followed
/// by a byte other than LF.
pub(crate) enum ScanLine {
    NeedMore { probe: usize },
    Bad,
    Line { end: usize, next: usize },
}

/// Locate the terminator of the line starting at `pos`, examining no byte
/// before `probe`: the watermark guarantees `buf[pos..probe]` holds no CR or
/// LF. The ghost result counts the bytes examined.
pub(crate) fn scan_line(buf: &Vec<u8>, pos: usize, probe: usize) -> (r: (ScanLine, Ghost<nat>))
    requires
        pos <= probe <= buf@.len(),
        no_eol(buf@, pos as int, probe as int),
    ensures
        match r.0 {
            ScanLine::NeedMore { probe: p } => {
                &&& line_at(buf@, pos as int) is NeedMore
                &&& probe <= p <= buf@.len()
                &&& pos <= p
                &&& no_eol(buf@, pos as int, p as int)
                &&& (p == buf@.len() || (p + 1 == buf@.len() && buf@[p as int] == 13u8))
                &&& r.1@ <= p - probe + 1
            },
            ScanLine::Bad => {
                &&& line_at(buf@, pos as int) is Bad
                &&& r.1@ <= buf@.len() - probe + 1
            },
            ScanLine::Line { end, next } => {
                &&& line_at(buf@, pos as int) == (LineScan::Line {
                    end: end as int,
                    next: next as int,
                })
                &&& pos <= end < next <= buf@.len()
                &&& probe <= end
                &&& r.1@ <= next - probe
            },
        },
{
    let mut j = probe;
    loop
        invariant
            pos <= probe <= j <= buf@.len(),
            no_eol(buf@, pos as int, j as int),
        decreases buf@.len() - j,
    {
        if j >= buf.len() {
            proof {
                lemma_eol_from_is(buf@, pos as int, j as int);
            }
            return (ScanLine::NeedMore { probe: j }, Ghost((j - probe) as nat));
        }
        let b = buf[j];
        if b == 13u8 {
            proof {
                lemma_eol_from_is(buf@, pos as int, j as int);
            }
            if j + 1 >= buf.len() {
                return (ScanLine::NeedMore { probe: j }, Ghost((j - probe + 1) as nat));
            }
            let b2 = buf[j + 1];
            if b2 == 10u8 {
                return (ScanLine::Line { end: j, next: j + 2 }, Ghost((j - probe + 2) as nat));
            } else {
                return (ScanLine::Bad, Ghost((j - probe + 2) as nat));
            }
        }
        if b == 10u8 {
            proof {
                lemma_eol_from_is(buf@, pos as int, j as int);
            }
            return (ScanLine::Line { end: j, next: j + 1 }, Ghost((j - probe + 1) as nat));
        }
        j = j + 1;
    }
}

/// Whether `b` is an HTTP token character.
fn tchar(b: u8) -> (r: bool)
    ensures
        r == is_tchar(b),
{
    (48u8 <= b && b <= 57u8) || (65u8 <= b && b <= 90u8) || (97u8 <= b && b <= 122u8) || b == 33u8
        || (35u8 <= b && b <= 39u8) || b == 42u8 || b == 43u8 || b == 45u8 || b == 46u8 || (94u8
        <= b && b <= 96u8) || b == 124u8 || b == 126u8
}

/// Walk a run of token characters from `from` up to the delimiter `delim`,
/// within the content `buf[start..end]`. `None` when the delimiter is missing
/// or a byte that is neither delimiter nor token character comes first.
fn scan_token(buf: &Vec<u8>, start: usize, end: usize, from: usize, delim: u8) -> (r: Option<
    usize,
>)
    requires
        start <= from <= end <= buf@.len(),
        delim == 32u8 || delim == 58u8,
    ensures
        ({
            let c = buf@.subrange(start as int, end as int);
            let f0 = from - start;
            match r {
                Some(j) => {
                    &&& from <= j < end
                    &&& find_from(c, f0, delim) == j - start
                    &&& forall|k: int| f0 <= k < j - start ==> is_tchar(c[k])
                },
                None => !(find_from(c, f0, delim) < c.len() && (forall|k: int|
                    f0 <= k < find_from(c, f0, delim) ==> is_tchar(c[k]))),
            }
        }),
{
    let ghost c = buf@.subrange(start as int, end as int);
    let mut j = from;
    loop
        invariant
            start <= from <= j <= end <= buf@.len(),
            c == buf@.subrange(start as int, end as int),
            forall|k: int| from - start <= k < j - start ==> is_tchar(c[k]),
            forall|k: int| from - start <= k < j - start ==> c[k] != delim,
        decreases end - j,
    {
        if j >= end {
            proof {
                lemma_find_from_lower(c, from - start, delim, c.len() as int);
                lemma_find_from_bounds(c, from - start, delim);
            }
            return None;
        }
        let b = buf[j];
        proof {
            assert(c[j - start] == buf@[j as int]);
        }
        if b == delim {
            proof {
                lemma_find_from_is(c, from - start, delim, j - start);
            }
            return Some(j);
        }
        if !tchar(b) {
            proof {
                lemma_find_from_lower(c, from - start, delim, j - start + 1);
            }
            return None;
        }
        j = j + 1;
    }
}

/// Walk a run of target bytes from `from` up to a space, within the content
/// `buf[start..end]`.
fn scan_target(buf: &Vec<u8>, start: usize, end: usize, from: usize) -> (r: Option<usize>)
    requires
        start <= from <= end <= buf@.len(),
    ensures
        ({
            let c = buf@.subrange(start as int, end as int);
            let f0 = from - start;
            match r {
                Some(j) => {
                    &&& from <= j < end
                    &&& find_from(c, f0, 32u8) == j - start
                    &&& forall|k: int| f0 <= k < j - start ==> is_target_byte(c[k])
                },
                None => !(find_from(c, f0, 32u8) < c.len() && (forall|k: int|
                    f0 <= k < find_from(c, f0, 32u8) ==> is_target_byte(c[k]))),
            }
        }),
{
    let ghost c = buf@.subrange(start as int, end as int);
    let mut j = from;
    loop
        invariant
            start <= from <= j <= end <= buf@.len(),
            c == buf@.subrange(start as int, end as int),
            forall|k: int| from - start <= k < j - start ==> is_target_byte(c[k]),
            forall|k: int| from - start <= k < j - start ==> c[k] != 32u8,
        decreases end - j,
    {
        if j >= end {
            proof {
                lemma_find_from_lower(c, from - start, 32u8, c.len() as int);
                lemma_find_from_bounds(c, from - start, 32u8);
            }
            return None;
        }
        let b = buf[j];
        proof {
            assert(c[j - start] == buf@[j as int]);
        }
        if b == 32u8 {
            proof {
                lemma_find_from_is(c, from - start, 32u8, j - start);
            }
            return Some(j);
        }
        if !(b >= 33u8 && b != 127u8) {
            proof {
                lemma_find_from_lower(c, from - start, 32u8, j - start + 1);
            }
            return None;
        }
        j = j + 1;
    }
}

/// First position at or after `from` whose byte is not horizontal
/// whitespace, within the content `buf[start..end]`.
fn skip_ws(buf: &Vec<u8>, start: usize, end: usize, from: usize) -> (j: usize)
    requires
        start <= from <= end <= buf@.len(),
    ensures
        from <= j <= end,
        ws_fwd(buf@.subrange(start as int, end as int), from - start) == j - start,
{
    let ghost c = buf@.subrange(start as int, end as int);
    let mut j = from;
    loop
        invariant
            start <= from <= j <= end <= buf@.len(),
            c == buf@.subrange(start as int, end as int),
            forall|k: int| from - start <= k < j - start ==> is_ws(c[k]),
        decreases end - j,
    {
        if j >= end {
            proof {
                lemma_ws_fwd_is(c, from - start, j - start);
            }
            return j;
        }
        let b = buf[j];
        proof {
            assert(c[j - start] == buf@[j as int]);
        }
        if !(b == 32u8 || b == 9u8) {
            proof {
                lemma_ws_fwd_is(c, from - start, j - start);
            }
            return j;
        }
        j = j + 1;
    }
}

/// End of `buf[lo..end]` once trailing horizontal whitespace is dropped,
/// within the content `buf[start..end]`.
fn trim_ws_back(buf: &Vec<u8>, start: usize, end: usize, lo: usize) -> (j: usize)
    requires
        start <= lo <= end <= buf@.len(),
    ensures
        lo <= j <= end,
        ws_back(
            buf@.subrange(start as int, end as int),
            lo - start,
            end - start,
        ) == j - start,
{
    let ghost c = buf@.subrange(start as int, end as int);
    let mut j = end;
    loop
        invariant
            start <= lo <= j <= end <= buf@.len(),
            c == buf@.subrange(start as int, end as int),
            forall|k: int| j - start <= k < end - start ==> is_ws(c[k]),
        decreases j - lo,
    {
        if j <= lo {
            proof {
                lemma_ws_back_is(c, lo - start, end - start, j - start);
            }
            return j;
        }
        let b = buf[j - 1];
        proof {
            assert(c[j - 1 - start] == buf@[j - 1 as int]);
        }
        if !(b == 32u8 || b == 9u8) {
            proof {
                lemma_ws_back_is(c, lo - start, end - start, j - start);
            }
            return j;
        }
        j = j - 1;
    }
}

/// The pieces of a recognized request line.
pub(crate) struct ReqLine {
    pub method: Span,
    pub path: Span,
    pub major: u8,
    pub minor: u8,
}

/// Recognize `buf[start..end]` as a request-line content; spans are absolute
/// offsets into `buf`.
pub(crate) fn parse_request_line(buf: &Vec<u8>, start: usize, end: usize) -> (r: Option<ReqLine>)
    requires
        start <= end <= buf@.len(),
    ensures
        ({
            let c = buf@.subrange(start as int, end as int);
            match r {
                Some(rl) => {
                    &&& req_line_ok(c)
                    &&& rl.method.off >= start
                    &&& rl.method.off + rl.method.len <= end
                    &&& rl.method.slice_of(buf@) == req_method(c)
                    &&& rl.path.off >= start
                    &&& rl.path.off + rl.path.len <= end
                    &&& rl.path.slice_of(buf@) == req_target(c)
                    &&& rl.major == req_major(c)
                    &&& rl.minor == req_minor(c)
                },
                None => !req_line_ok(c),
            }
        }),
{
    let ghost c = buf@.subrange(start as int, end as int);
    let sp1 = match scan_token(buf, start, end, start, 32u8) {
        Some(j) => j,
        None => {
            return None;
        },
    };
    if sp1 == start {
        return None;
    }
    let sp2 = match scan_target(buf, start, end, sp1 + 1) {
        Some(j) => j,
        None => {
            return None;
        },
    };
    if sp2 == sp1 + 1 {
        return None;
    }
    proof {
        assert(req_sp1(c) == sp1 - start);
        assert(req_sp2(c) == sp2 - start);
    }
    // the tail must be exactly `HTTP/<digit>.<digit>`
    if end - sp2 != 9 {
        return None;
    }
    let v = sp2 + 1;
    proof {
        assert(forall|k: int| 0 <= k < c.len() ==> c[k] == buf@[start + k]);
    }
    if !(buf[v] == 72u8 && buf[v + 1] == 84u8 && buf[v + 2] == 84u8 && buf[v + 3] == 80u8 && buf[v
        + 4] == 47u8) {
        return None;
    }
    let d1 = buf[v + 5];
    let dot = buf[v + 6];
    let d2 = buf[v + 7];
    if !(48u8 <= d1 && d1 <= 57u8 && dot == 46u8 && 48u8 <= d2 && d2 <= 57u8) {
        return None;
    }
    let rl = ReqLine {
        method: Span { off: start, len: sp1 - start },
        path: Span { off: sp1 + 1, len: sp2 - (sp1 + 1) },
        major: d1 - 48u8,
        minor: d2 - 48u8,
    };
    proof {
        assert(rl.method.slice_of(buf@) =~= req_method(c));
        assert(rl.path.slice_of(buf@) =~= req_target(c));
    }
    Some(rl)
}

/// The pieces of a recognized status line.
pub(crate) struct StatusLine {
    pub status: u16,
    pub reason: Span,
    pub major: u8,
    pub minor: u8,
}

/// Recognize `buf[start..end]` as a status-line content; the reason span is
/// absolute offsets into `buf`.
pub(crate) fn parse_status_line(buf: &Vec<u8>, start: usize, end: usize) -> (r: Option<StatusLine>)
    requires
        start <= end <= buf@.len(),
    ensures
        ({
            let c = buf@.subrange(start as int, end as int);
            match r {
                Some(sl) => {
                    &&& status_line_ok(c)
                    &&& sl.reason.off >= start
                    &&& sl.reason.off + sl.reason.len <= end
                    &&& sl.reason.slice_of(buf@) == status_reason(c)
                    &&& sl.status == status_code(c)
                    &&& sl.major == status_major(c)
                    &&& sl.minor == status_minor(c)
                },
                None => !status_line_ok(c),
            }
        }),
{
    let ghost c = buf@.subrange(start as int, end as int);
    proof {
        assert(forall|k: int| 0 <= k < c.len() ==> c[k] == buf@[start + k]);
    }
    if end - start < 12 {
        return None;
    }
    if !(buf[start] == 72u8 && buf[start + 1] == 84u8 && buf[start + 2] == 84u8 && buf[start + 3]
        == 80u8 && buf[start + 4] == 47u8) {
        return None;
    }
    let d1 = buf[start + 5];
    let dot = buf[start + 6];
    let d2 = buf[start + 7];
    if !(48u8 <= d1 && d1 <= 57u8 && dot == 46u8 && 48u8 <= d2 && d2 <= 57u8) {
        return None;
    }
    if buf[start + 8] != 32u8 {
        return None;
    }
    let s1 = buf[start + 9];
    let s2 = buf[start + 10];
    let s3 = buf[start + 11];
    if !(48u8 <= s1 && s1 <= 57u8 && 48u8 <= s2 && s2 <= 57u8 && 48u8 <= s3 && s3 <= 57u8) {
        return None;
    }
    let reason: Span;
    if end - start == 12 {
        reason = Span { off: end, len: 0 };
    } else {
        if buf[start + 12] != 32u8 {
            return None;
        }
        reason = Span { off: start + 13, len: end - (start + 13) };
    }
    let sl = StatusLine {
        status: 100 * ((s1 - 48u8) as u16) + 10 * ((s2 - 48u8) as u16) + ((s3 - 48u8) as u16),
        reason,
        major: d1 - 48u8,
        minor: d2 - 48u8,
    };
    proof {
        assert(sl.reason.slice_of(buf@) =~= status_reason(c));
    }
    Some(sl)
}

/// Recognize `buf[start..end]` as a header-line content; the spans are
/// absolute offsets into `buf`, the value trimmed of surrounding whitespace.
pub(crate) fn parse_header_line(buf: &Vec<u8>, start: usize, end: usize) -> (r: Option<Header>)
    requires
        start <= end <= buf@.len(),
    ensures
        ({
            let c = buf@.subrange(start as int, end as int);
            match r {
                Some(h) => {
                    &&& header_line_ok(c)
                    &&& h.0.off >= start
                    &&& h.0.off + h.0.len <= end
                    &&& h.0.slice_of(buf@) == hdr_name(c)
                    &&& h.1.off >= start
                    &&& h.1.off + h.1.len <= end
                    &&& h.1.slice_of(buf@) == hdr_value(c)
                },
                None => !header_line_ok(c),
            }
        }),
{
    let ghost c = buf@.subrange(start as int, end as int);
    let col = match scan_token(buf, start, end, start, 58u8) {
        Some(j) => j,
        None => {
            return None;
        },
    };
    if col == start {
        return None;
    }
    let v = skip_ws(buf, start, end, col + 1);
    let w = trim_ws_back(buf, start, end, v);
    proof {
        assert(hdr_vstart(c) == v - start);
        assert(hdr_vend(c) == w - start);
    }
    let h = Header(Span { off: start, len: col - start }, Span { off: v, len: w - v });
    proof {
        assert(h.0.slice_of(buf@) =~= hdr_name(c));
        assert(h.1.slice_of(buf@) =~= hdr_value(c));
    }
    Some(h)
}

} // verus!
