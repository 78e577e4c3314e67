//! Passing an upstream response on to the client as it arrives.
//!
//! The response goes through a buffer. Every step takes bytes from the front
//! of the buffer, which are to be written to the client as they are, and says
//! what to do next.
use crate::buffer::{self, buffer_slice, find_headers_end};
use crate::chunked::{self, ChunkFault, ChunkPhase, ChunkScanner, ScanVerdict};
use crate::encoding::{self, lossy};
use crate::headers::{self, any_line_says, find_last_number, head_lines};
use crate::number::{self, parse_number};
use crate::text::{self, chars_of, contains_text, spells_ignoring_case, split_words};
use crate::written;
use bytes::BytesMut;
use vstd::prelude::*;
use vstd::slice::slice_subrange;

verus! {

// ---------------------------------------------------------------------------
// The head
// ---------------------------------------------------------------------------

/// What the head of an upstream response says.
#[derive(Clone, Copy, Debug, PartialEq, Eq, Structural)]
pub struct ResponseInfo {
    pub content_length: Option<usize>,
    pub connection_close: bool,
    pub connection_keep_alive: bool,
    pub is_http10: bool,
    pub is_chunked: bool,
    pub status_code: Option<u16>,
}

/// The status code in a status line.
pub open spec fn status_in(line: Seq<char>) -> Option<nat> {
    let ws = text::words(line);
    if ws.len() >= 2 {
        number::parsed_number(ws[1], 10, u16::MAX as nat)
    } else {
        None
    }
}

/// What the head of a response says.
pub open spec fn info_of(head: Seq<char>) -> ResponseInfo {
    let line = headers::start_line(head);
    let ls = headers::header_lines(head);
    ResponseInfo {
        content_length: match headers::last_number(ls, "content-length:"@) {
            Some(n) => Some(n as usize),
            None => None,
        },
        connection_close: headers::some_line_says(ls, "connection:"@, "close"@),
        connection_keep_alive: headers::some_line_says(ls, "connection:"@, "keep-alive"@),
        is_http10: text::has_text(line, "HTTP/1.0"@),
        is_chunked: headers::some_line_says(ls, "transfer-encoding:"@, "chunked"@),
        status_code: match status_in(line) {
            Some(n) => Some(n as u16),
            None => None,
        },
    }
}

/// Reads the status code in a status line.
fn parse_status(line: &[char]) -> (r: Option<u16>)
    ensures
        match r {
            Some(n) => status_in(line@) == Some(n as nat),
            None => status_in(line@) is None,
        },
{
    let ws = split_words(line);
    assert(text::views(ws@).len() == ws@.len());
    if ws.len() < 2 {
        return None;
    }
    assert(text::views(ws@)[1] == ws@[1]@);
    match parse_number(ws[1], 10, 65535) {
        Some(n) => Some(n as u16),
        None => None,
    }
}

/// Reads the head of a response.
pub fn parse_response_text(head: &str) -> (r: ResponseInfo)
    ensures
        r == info_of(head@),
{
    let hc = chars_of(head);
    let ls = head_lines(hc.as_slice());
    let ghost all = text::lines(head@);
    assert(ls@.len() == text::views(ls@).len());
    if ls.len() == 0 {
        let info = ResponseInfo {
            content_length: None,
            connection_close: false,
            connection_keep_alive: false,
            is_http10: false,
            is_chunked: false,
            status_code: None,
        };
        proof {
            reveal_strlit("HTTP/1.0");
            let line = headers::start_line(head@);
            assert(line.len() == 0);
            assert(!text::has_text(line, "HTTP/1.0"@));
            assert(text::words(line).len() == 0);
        }
        return info;
    }
    assert(text::views(ls@)[0] == ls@[0]@);
    assert(headers::start_line(head@) == ls@[0]@);
    assert(headers::header_lines(head@) =~= text::views(ls@).skip(1));
    ResponseInfo {
        content_length: find_last_number(&ls, 1, "content-length:"),
        connection_close: any_line_says(&ls, 1, "connection:", "close"),
        connection_keep_alive: any_line_says(&ls, 1, "connection:", "keep-alive"),
        is_http10: contains_text(ls[0], "HTTP/1.0"),
        is_chunked: any_line_says(&ls, 1, "transfer-encoding:", "chunked"),
        status_code: parse_status(ls[0]),
    }
}

/// Reads the bytes of the head of a response.
pub fn parse_response_headers(header_bytes: &[u8]) -> (r: ResponseInfo)
    ensures
        r == info_of(encoding::lossy_text(header_bytes@)),
{
    let head = lossy(header_bytes);
    parse_response_text(head.as_str())
}

/// Whether a status says that there is no body.
pub open spec fn status_without_body(status: Option<u16>) -> bool {
    status matches Some(c) && (100 <= c < 200 || c == 204 || c == 304)
}

/// Whether a status says that there is no body.
fn has_no_body(status_code: Option<u16>) -> (r: bool)
    ensures
        r == status_without_body(status_code),
{
    match status_code {
        Some(c) => (100 <= c && c < 200) || c == 204 || c == 304,
        None => false,
    }
}

/// Whether a response to the method with the status has no body.
pub fn is_no_body(method: &str, status_code: Option<u16>) -> (r: bool)
    ensures
        r == (text::same_ignoring_case(method@, "HEAD"@) || status_without_body(status_code)),
{
    let mc = chars_of(method);
    spells_ignoring_case(mc.as_slice(), "HEAD") || has_no_body(status_code)
}

/// Whether the connection can be used again after a complete response.
pub open spec fn reusable_after(info: ResponseInfo) -> bool {
    if info.is_http10 {
        info.connection_keep_alive && !info.connection_close
    } else {
        !info.connection_close
    }
}

// ---------------------------------------------------------------------------
// The stream
// ---------------------------------------------------------------------------

/// Where in a response the streamer stands.
#[derive(Clone, Copy, Debug, PartialEq, Eq, Structural)]
pub enum StreamPhase {
    /// Before the end of the head.
    Head,
    /// In a body that comes in chunks.
    Chunked(ChunkScanner),
    /// In a body of known length, with so many bytes to go.
    Length(usize),
    /// In a body that ends with the connection, behind so many bytes.
    UntilEof(usize),
    /// Behind the response.
    End,
}

/// Why a response is given up.
#[derive(Clone, Copy, Debug, PartialEq, Eq, Structural)]
pub enum StreamFault {
    /// The head exceeds the limit.
    HeadersTooLarge,
    /// The body exceeds the limit.
    BodyTooLarge,
    /// A chunk has no usable size.
    InvalidChunk,
    /// The upstream closed the connection inside the head.
    ClosedInHeaders,
    /// The upstream closed the connection inside a body that comes in chunks.
    ClosedInBody,
}

/// What to do after the bytes taken have been written.
#[derive(Clone, Copy, Debug, PartialEq, Eq, Structural)]
pub enum StreamVerdict {
    /// Take another step.
    Continue,
    /// Read more from the upstream.
    NeedRead,
    /// The response is complete; whether the connection can be used again.
    Done(bool),
    /// The response is given up.
    Fail(StreamFault),
}

/// Follows a response through the buffer in which it arrives.
#[derive(Clone, Copy, Debug, PartialEq, Eq, Structural)]
pub struct ResponseStreamer {
    /// Where the streamer stands.
    pub phase: StreamPhase,
    /// Whether the connection can be used again after the response.
    pub reusable: bool,
    /// Whether the request asked for no body.
    pub head_request: bool,
    /// The limit on the head; zero is none.
    pub max_headers: usize,
    /// The limit on the body; zero is none.
    pub max_body: usize,
}

/// Whether a response to the request has no body.
pub open spec fn bodiless(s: ResponseStreamer, info: ResponseInfo) -> bool {
    s.head_request || status_without_body(info.status_code)
}

/// What the streamer is behind a head, and what it says.
pub open spec fn after_head(s: ResponseStreamer, info: ResponseInfo) -> (
    ResponseStreamer,
    StreamVerdict,
) {
    let t = ResponseStreamer { reusable: reusable_after(info), ..s };
    if bodiless(s, info) {
        (
            (ResponseStreamer { phase: StreamPhase::End, ..t }),
            StreamVerdict::Done(reusable_after(info)),
        )
    } else if info.is_chunked {
        (
            (ResponseStreamer {
                phase: StreamPhase::Chunked(
                    (ChunkScanner {
                        phase: ChunkPhase::Size,
                        body_bytes: 0,
                        max_body: s.max_body,
                        strict: false,
                    }),
                ),
                ..t
            }),
            StreamVerdict::Continue,
        )
    } else {
        match info.content_length {
            Some(n) => if s.max_body > 0 && n > s.max_body {
                (t, StreamVerdict::Fail(StreamFault::BodyTooLarge))
            } else {
                (
                    (ResponseStreamer { phase: StreamPhase::Length(n), ..t }),
                    StreamVerdict::Continue,
                )
            },
            None => (
                (ResponseStreamer { phase: StreamPhase::UntilEof(0), reusable: false, ..t }),
                StreamVerdict::Continue,
            ),
        }
    }
}

/// The fault of a response whose chunks are at fault.
pub open spec fn fault_of(f: ChunkFault) -> StreamFault {
    match f {
        ChunkFault::Invalid => StreamFault::InvalidChunk,
        ChunkFault::TooLarge => StreamFault::BodyTooLarge,
    }
}

/// What one step makes of the streamer, how many bytes it takes from the front
/// of the buffer, and what it says.
pub open spec fn stream_step(s: ResponseStreamer, buf: Seq<u8>) -> (
    ResponseStreamer,
    int,
    StreamVerdict,
) {
    match s.phase {
        StreamPhase::Head => match text::first_occurrence(buf, buffer::head_end()) {
            Some(i) => {
                let r = after_head(s, info_of(encoding::lossy_text(buf.take(i))));
                (r.0, i + 4, r.1)
            },
            None => if s.max_headers > 0 && buf.len() > s.max_headers {
                (s, 0, StreamVerdict::Fail(StreamFault::HeadersTooLarge))
            } else {
                (s, 0, StreamVerdict::NeedRead)
            },
        },
        StreamPhase::Chunked(c) => {
            let r = chunked::scan_step(c, buf);
            let t = ResponseStreamer { phase: StreamPhase::Chunked(r.0), ..s };
            match r.2 {
                ScanVerdict::Continue => (t, r.1, StreamVerdict::Continue),
                ScanVerdict::NeedRead => (t, r.1, StreamVerdict::NeedRead),
                ScanVerdict::Done => (
                    (ResponseStreamer { phase: StreamPhase::End, ..s }),
                    r.1,
                    StreamVerdict::Done(s.reusable),
                ),
                ScanVerdict::Fail(f) => (t, r.1, StreamVerdict::Fail(fault_of(f))),
            }
        },
        StreamPhase::Length(left) => if left == 0 {
            (
                (ResponseStreamer { phase: StreamPhase::End, ..s }),
                0,
                StreamVerdict::Done(s.reusable),
            )
        } else if buf.len() == 0 {
            (s, 0, StreamVerdict::NeedRead)
        } else {
            let take = if left <= buf.len() {
                left as int
            } else {
                buf.len() as int
            };
            (
                (ResponseStreamer { phase: StreamPhase::Length((left - take) as usize), ..s }),
                take,
                StreamVerdict::Continue,
            )
        },
        StreamPhase::UntilEof(seen) => if buf.len() == 0 {
            (s, 0, StreamVerdict::NeedRead)
        } else if s.max_body > 0 && seen + buf.len() > s.max_body {
            (s, 0, StreamVerdict::Fail(StreamFault::BodyTooLarge))
        } else {
            (
                (ResponseStreamer {
                    phase: StreamPhase::UntilEof(
                        if seen + buf.len() > usize::MAX {
                            usize::MAX
                        } else {
                            (seen + buf.len()) as usize
                        },
                    ),
                    ..s
                }),
                buf.len() as int,
                StreamVerdict::Continue,
            )
        },
        StreamPhase::End => (s, 0, StreamVerdict::Done(s.reusable)),
    }
}

/// What the end of the connection means where the streamer asked for more.
pub open spec fn at_eof(s: ResponseStreamer) -> StreamVerdict {
    match s.phase {
        StreamPhase::Head => StreamVerdict::Fail(StreamFault::ClosedInHeaders),
        StreamPhase::Chunked(_) => StreamVerdict::Fail(StreamFault::ClosedInBody),
        StreamPhase::Length(_) => StreamVerdict::Done(false),
        StreamPhase::UntilEof(_) => StreamVerdict::Done(false),
        StreamPhase::End => StreamVerdict::Done(s.reusable),
    }
}

impl ResponseStreamer {
    /// A streamer for the response to a request with the method.
    pub fn new(method: &str, max_headers: usize, max_body: usize) -> (r: Self)
        ensures
            r == (ResponseStreamer {
                phase: StreamPhase::Head,
                reusable: false,
                head_request: text::same_ignoring_case(method@, "HEAD"@),
                max_headers,
                max_body,
            }),
    {
        let mc = chars_of(method);
        let head_request = spells_ignoring_case(mc.as_slice(), "HEAD");
        ResponseStreamer {
            phase: StreamPhase::Head,
            reusable: false,
            head_request,
            max_headers,
            max_body,
        }
    }

    /// Goes on behind a head.
    fn behind_head(&mut self, info: ResponseInfo) -> (r: StreamVerdict)
        ensures
            after_head(*old(self), info) == (*final(self), r),
    {
        self.reusable = if info.is_http10 {
            info.connection_keep_alive && !info.connection_close
        } else {
            !info.connection_close
        };
        if self.head_request || has_no_body(info.status_code) {
            self.phase = StreamPhase::End;
            return StreamVerdict::Done(self.reusable);
        }
        if info.is_chunked {
            self.phase = StreamPhase::Chunked(ChunkScanner::new(self.max_body, false));
            return StreamVerdict::Continue;
        }
        match info.content_length {
            Some(n) => {
                if self.max_body > 0 && n > self.max_body {
                    return StreamVerdict::Fail(StreamFault::BodyTooLarge);
                }
                self.phase = StreamPhase::Length(n);
            },
            None => {
                self.phase = StreamPhase::UntilEof(0);
                self.reusable = false;
            },
        }
        StreamVerdict::Continue
    }

    /// Takes one step: removes bytes of the response from the front of the
    /// buffer and returns them.
    pub fn step(&mut self, buf: &mut BytesMut) -> (r: (BytesMut, StreamVerdict))
        ensures
            stream_step(*old(self), buffer::buffered(*old(buf))) == (
                *final(self),
                buffer::buffered(r.0).len() as int,
                r.1,
            ),
            buffer::buffered(r.0) + buffer::buffered(*final(buf)) == buffer::buffered(*old(buf)),
    {
        let ghost all = buffer::buffered(*buf);
        let len: usize = buffer_slice(buf).len();
        match self.phase {
            StreamPhase::Head => match find_headers_end(buffer_slice(buf)) {
                Some(end) => {
                    let info = parse_response_headers(slice_subrange(buffer_slice(buf), 0, end));
                    assert(all.subrange(0, end as int) =~= all.take(end as int));
                    let head = buf.split_to(end + 4);
                    assert(buffer::buffered(head) + buffer::buffered(*buf) =~= all);
                    let verdict = self.behind_head(info);
                    (head, verdict)
                },
                None => {
                    let none = BytesMut::new();
                    assert(buffer::buffered(none) + all =~= all);
                    if self.max_headers > 0 && len > self.max_headers {
                        (none, StreamVerdict::Fail(StreamFault::HeadersTooLarge))
                    } else {
                        (none, StreamVerdict::NeedRead)
                    }
                },
            },
            StreamPhase::Chunked(c) => {
                let mut scanner = c;
                let (piece, verdict) = scanner.step(buf);
                self.phase = StreamPhase::Chunked(scanner);
                match verdict {
                    ScanVerdict::Continue => (piece, StreamVerdict::Continue),
                    ScanVerdict::NeedRead => (piece, StreamVerdict::NeedRead),
                    ScanVerdict::Done => {
                        self.phase = StreamPhase::End;
                        (piece, StreamVerdict::Done(self.reusable))
                    },
                    ScanVerdict::Fail(ChunkFault::Invalid) => {
                        (piece, StreamVerdict::Fail(StreamFault::InvalidChunk))
                    },
                    ScanVerdict::Fail(ChunkFault::TooLarge) => {
                        (piece, StreamVerdict::Fail(StreamFault::BodyTooLarge))
                    },
                }
            },
            StreamPhase::Length(left) => {
                if left == 0 || len == 0 {
                    let none = BytesMut::new();
                    assert(buffer::buffered(none) + all =~= all);
                    if left == 0 {
                        self.phase = StreamPhase::End;
                        return (none, StreamVerdict::Done(self.reusable));
                    }
                    return (none, StreamVerdict::NeedRead);
                }
                let take: usize = if left <= len {
                    left
                } else {
                    len
                };
                let piece = buf.split_to(take);
                assert(buffer::buffered(piece) + buffer::buffered(*buf) =~= all);
                self.phase = StreamPhase::Length(left - take);
                (piece, StreamVerdict::Continue)
            },
            StreamPhase::UntilEof(seen) => {
                if len == 0 {
                    let none = BytesMut::new();
                    assert(buffer::buffered(none) + all =~= all);
                    return (none, StreamVerdict::NeedRead);
                }
                if self.max_body > 0 && (len > self.max_body || seen > self.max_body - len) {
                    let none = BytesMut::new();
                    assert(buffer::buffered(none) + all =~= all);
                    return (none, StreamVerdict::Fail(StreamFault::BodyTooLarge));
                }
                let total: usize = seen.saturating_add(len);
                let piece = buf.split_to(len);
                assert(buffer::buffered(piece) + buffer::buffered(*buf) =~= all);
                self.phase = StreamPhase::UntilEof(total);
                (piece, StreamVerdict::Continue)
            },
            StreamPhase::End => {
                let none = BytesMut::new();
                assert(buffer::buffered(none) + all =~= all);
                (none, StreamVerdict::Done(self.reusable))
            },
        }
    }

    /// What the end of the connection means where the streamer asked for more.
    pub fn end_of_input(&self) -> (r: StreamVerdict)
        ensures
            r == at_eof(*self),
    {
        match self.phase {
            StreamPhase::Head => StreamVerdict::Fail(StreamFault::ClosedInHeaders),
            StreamPhase::Chunked(_) => StreamVerdict::Fail(StreamFault::ClosedInBody),
            StreamPhase::Length(_) => StreamVerdict::Done(false),
            StreamPhase::UntilEof(_) => StreamVerdict::Done(false),
            StreamPhase::End => StreamVerdict::Done(self.reusable),
        }
    }
}

// ---------------------------------------------------------------------------
// Whole responses
// ---------------------------------------------------------------------------

/// How close a phase is to asking for bytes.
pub open spec fn stream_rank(p: StreamPhase) -> nat {
    match p {
        StreamPhase::Chunked(c) => chunked::phase_rank(c.phase),
        _ => 0,
    }
}

/// What a run of steps makes of the streamer, up to the first that does not
/// say to continue: the streamer, the number of bytes taken, and what it says.
pub open spec fn stream_run(s: ResponseStreamer, buf: Seq<u8>) -> (
    ResponseStreamer,
    int,
    StreamVerdict,
)
    decreases buf.len(), stream_rank(s.phase),
    via stream_run_decreases
{
    let r = stream_step(s, buf);
    if r.2 == StreamVerdict::Continue {
        let q = stream_run(r.0, buf.skip(r.1));
        (q.0, r.1 + q.1, q.2)
    } else {
        r
    }
}

#[via_fn]
proof fn stream_run_decreases(s: ResponseStreamer, buf: Seq<u8>) {
    lemma_stream_step(s, buf);
}

proof fn lemma_stream_step(s: ResponseStreamer, buf: Seq<u8>)
    ensures
        0 <= stream_step(s, buf).1 <= buf.len(),
        stream_step(s, buf).2 == StreamVerdict::Continue && stream_step(s, buf).1 == 0
            ==> stream_rank(stream_step(s, buf).0.phase) < stream_rank(s.phase),
{
    text::lemma_first_occurrence(buf, buffer::head_end());
    match s.phase {
        StreamPhase::Chunked(c) => {
            chunked::lemma_scan_step(c, buf);
        },
        _ => {},
    }
}

/// Whether `head` is a complete head, without the empty line that ends it.
pub open spec fn whole_head(head: Seq<u8>) -> bool {
    text::first_occurrence(head + buffer::head_end(), buffer::head_end()) == Some(
        head.len() as int,
    )
}

proof fn lemma_head_found(head: Seq<u8>, rest: Seq<u8>)
    requires
        whole_head(head),
    ensures
        text::first_occurrence(head + buffer::head_end() + rest, buffer::head_end()) == Some(
            head.len() as int,
        ),
{
    let e = buffer::head_end();
    let a = head + e;
    let all = a + rest;
    let n = head.len() as int;
    text::lemma_first_occurrence(a, e);
    assert(all.subrange(n, n + 4) =~= a.subrange(n, n + 4));
    assert forall|j: int| 0 <= j < n implies !text::occurs_at(all, e, j) by {
        assert(all.subrange(j, j + 4) =~= a.subrange(j, j + 4));
        assert(!text::occurs_at(a, e, j));
    }
    text::lemma_is_first_occurrence(all, e, n);
}

/// A streamer before the response.
pub open spec fn at_start(s: ResponseStreamer) -> bool {
    s.phase == StreamPhase::Head
}

/// What the bytes of a head say.
pub open spec fn info_in(head: Seq<u8>) -> ResponseInfo {
    info_of(encoding::lossy_text(head))
}

/// A response of known length is passed on exactly: the head and as many bytes
/// as it announces. What follows stays in the buffer.
pub proof fn length_is_kept(
    s: ResponseStreamer,
    head: Seq<u8>,
    body: Seq<u8>,
    rest: Seq<u8>,
)
    requires
        at_start(s),
        whole_head(head),
        !bodiless(s, info_in(head)),
        !info_in(head).is_chunked,
        info_in(head).content_length == Some(body.len() as usize),
        body.len() <= usize::MAX,
        s.max_body == 0 || body.len() <= s.max_body,
    ensures
        ({
            let message = head + buffer::head_end() + body;
            let r = stream_run(s, message + rest);
            r.1 == message.len() && r.2 == StreamVerdict::Done(reusable_after(info_in(head)))
        }),
{
    let message = head + buffer::head_end() + body;
    let all = message + rest;
    assert(all =~= head + buffer::head_end() + (body + rest));
    lemma_head_found(head, body + rest);
    assert(all.take(head.len() as int) =~= head);
    let r = stream_step(s, all);
    let after = all.skip(r.1);
    assert(after =~= body + rest);
    if body.len() == 0 {
        assert(stream_run(r.0, after) == stream_step(r.0, after));
    } else {
        let q = stream_step(r.0, after);
        assert(q.1 == body.len());
        assert(after.skip(q.1) =~= rest);
        assert(stream_run(q.0, rest) == stream_step(q.0, rest));
        assert(stream_run(r.0, after).1 == body.len());
    }
}

/// A response without a body ends with its head, whatever its fields announce.
pub proof fn bodiless_response_is_its_head(s: ResponseStreamer, head: Seq<u8>, rest: Seq<u8>)
    requires
        at_start(s),
        whole_head(head),
        bodiless(s, info_in(head)),
    ensures
        ({
            let message = head + buffer::head_end();
            let r = stream_run(s, message + rest);
            r.1 == message.len() && r.2 == StreamVerdict::Done(reusable_after(info_in(head)))
        }),
{
    let all = head + buffer::head_end() + rest;
    lemma_head_found(head, rest);
    assert(all.take(head.len() as int) =~= head);
}

proof fn lemma_chunks_run(s: ResponseStreamer, c: ChunkScanner, buf: Seq<u8>)
    requires
        s.phase == StreamPhase::Chunked(c),
    ensures
        ({
            let q = chunked::scan_run(c, buf);
            let t = ResponseStreamer { phase: StreamPhase::Chunked(q.0), ..s };
            stream_run(s, buf) == (match q.2 {
                ScanVerdict::Continue => stream_run(s, buf),
                ScanVerdict::NeedRead => (t, q.1, StreamVerdict::NeedRead),
                ScanVerdict::Done => (
                    (ResponseStreamer { phase: StreamPhase::End, ..s }),
                    q.1,
                    StreamVerdict::Done(s.reusable),
                ),
                ScanVerdict::Fail(f) => (t, q.1, StreamVerdict::Fail(fault_of(f))),
            })
        }),
    decreases buf.len(), chunked::phase_rank(c.phase),
{
    chunked::lemma_scan_step(c, buf);
    let r = chunked::scan_step(c, buf);
    if r.2 == ScanVerdict::Continue {
        let t = ResponseStreamer { phase: StreamPhase::Chunked(r.0), ..s };
        lemma_chunks_run(t, r.0, buf.skip(r.1));
    }
}

/// A response that comes in chunks is passed on exactly, trailer lines
/// included, up to the empty line behind them. What follows stays in the
/// buffer.
pub proof fn chunks_are_kept(
    s: ResponseStreamer,
    head: Seq<u8>,
    cs: Seq<chunked::Chunk>,
    last: Seq<u8>,
    trailers: Seq<Seq<u8>>,
    rest: Seq<u8>,
)
    requires
        at_start(s),
        whole_head(head),
        !bodiless(s, info_in(head)),
        info_in(head).is_chunked,
        chunked::last_line_ok(false, last),
        forall|i: int| 0 <= i < cs.len() ==> chunked::chunk_ok(false, #[trigger] cs[i]),
        forall|i: int| 0 <= i < trailers.len() ==> chunked::trailer_ok(#[trigger] trailers[i]),
        s.max_body == 0 || chunked::chunks_data(cs).len() <= s.max_body,
    ensures
        ({
            let message = head + buffer::head_end() + chunked::body_bytes(cs, last, trailers);
            let r = stream_run(s, message + rest);
            r.1 == message.len() && r.2 == StreamVerdict::Done(reusable_after(info_in(head)))
        }),
{
    let body = chunked::body_bytes(cs, last, trailers);
    let message = head + buffer::head_end() + body;
    let all = message + rest;
    assert(all =~= head + buffer::head_end() + (body + rest));
    lemma_head_found(head, body + rest);
    assert(all.take(head.len() as int) =~= head);
    let r = stream_step(s, all);
    assert(all.skip(r.1) =~= body + rest);
    let c = ChunkScanner {
        phase: ChunkPhase::Size,
        body_bytes: 0,
        max_body: s.max_body,
        strict: false,
    };
    chunked::whole_body_is_scanned(c, cs, last, trailers, rest);
    lemma_chunks_run(r.0, c, body + rest);
}

/// A response whose end is not announced is passed on whole, up to the end of
/// the connection, and the connection is not used again.
pub proof fn open_end_is_kept(s: ResponseStreamer, head: Seq<u8>, body: Seq<u8>)
    requires
        at_start(s),
        whole_head(head),
        !bodiless(s, info_in(head)),
        !info_in(head).is_chunked,
        info_in(head).content_length is None,
        s.max_body == 0 || body.len() <= s.max_body,
    ensures
        ({
            let message = head + buffer::head_end() + body;
            let r = stream_run(s, message);
            r.1 == message.len() && r.2 == StreamVerdict::NeedRead && at_eof(r.0)
                == StreamVerdict::Done(false)
        }),
{
    let message = head + buffer::head_end() + body;
    lemma_head_found(head, body);
    assert(message.take(head.len() as int) =~= head);
    let r = stream_step(s, message);
    assert(message.skip(r.1) =~= body);
    lemma_open_run(r.0, 0, body);
}

proof fn lemma_open_run(s: ResponseStreamer, seen: usize, buf: Seq<u8>)
    requires
        s.phase == StreamPhase::UntilEof(seen),
        s.max_body == 0 || seen + buf.len() <= s.max_body,
    ensures
        stream_run(s, buf) == (
            ResponseStreamer {
                phase: StreamPhase::UntilEof(
                    if seen + buf.len() > usize::MAX {
                        usize::MAX
                    } else {
                        (seen + buf.len()) as usize
                    },
                ),
                ..s
            },
            buf.len() as int,
            StreamVerdict::NeedRead,
        ),
{
    if buf.len() > 0 {
        let r = stream_step(s, buf);
        assert(buf.skip(r.1) =~= Seq::<u8>::empty());
        assert(stream_run(r.0, Seq::<u8>::empty()) == stream_step(r.0, Seq::<u8>::empty()));
    }
}

proof fn lemma_length_run(s: ResponseStreamer, left: usize, buf: Seq<u8>)
    requires
        s.phase == StreamPhase::Length(left),
    ensures
        stream_run(s, buf) == (if buf.len() < left {
            (
                (ResponseStreamer { phase: StreamPhase::Length((left - buf.len()) as usize), ..s }),
                buf.len() as int,
                StreamVerdict::NeedRead,
            )
        } else {
            (
                (ResponseStreamer { phase: StreamPhase::End, ..s }),
                left as int,
                StreamVerdict::Done(s.reusable),
            )
        }),
{
    if left > 0 && buf.len() > 0 {
        let r = stream_step(s, buf);
        let more = buf.skip(r.1);
        assert(stream_run(r.0, more) == stream_step(r.0, more));
    }
}

proof fn lemma_body_in_pieces(s: ResponseStreamer, a: Seq<u8>, b: Seq<u8>)
    requires
        s.phase != StreamPhase::Head,
        stream_run(s, a).2 == StreamVerdict::NeedRead,
        s.max_body == 0 || !(s.phase is UntilEof),
    ensures
        ({
            let first = stream_run(s, a);
            let second = stream_run(first.0, a.skip(first.1) + b);
            stream_run(s, a + b) == (second.0, first.1 + second.1, second.2)
        }),
{
    match s.phase {
        StreamPhase::Chunked(c) => {
            chunked::lemma_scan_run(c, a);
            lemma_chunks_run(s, c, a);
            lemma_chunks_run(s, c, a + b);
            chunked::body_in_pieces(c, a, b);
            let q = chunked::scan_run(c, a);
            let t = ResponseStreamer { phase: StreamPhase::Chunked(q.0), ..s };
            lemma_chunks_run(t, q.0, a.skip(q.1) + b);
            chunked::lemma_scan_run(q.0, a.skip(q.1) + b);
        },
        StreamPhase::Length(left) => {
            lemma_length_run(s, left, a);
            lemma_length_run(s, left, a + b);
            let t = stream_run(s, a).0;
            assert(a.skip(a.len() as int) + b =~= b);
            lemma_length_run(t, (left - a.len()) as usize, b);
        },
        StreamPhase::UntilEof(seen) => {
            lemma_open_run(s, seen, a);
            lemma_open_run(s, seen, a + b);
            let t = stream_run(s, a).0;
            assert(a.skip(a.len() as int) + b =~= b);
            lemma_open_run(t, t.phase->UntilEof_0, b);
        },
        _ => {},
    }
}

/// It makes no difference whether a response arrives at once or in pieces:
/// where the first piece leaves the streamer asking for more, going on with the
/// second one ends as if both had been there from the start. Only the limit on
/// a body whose end is not announced is held against each piece as it comes.
pub proof fn response_in_pieces(s: ResponseStreamer, a: Seq<u8>, b: Seq<u8>)
    requires
        stream_run(s, a).2 == StreamVerdict::NeedRead,
        s.max_body == 0 || !(stream_run(s, a).0.phase is UntilEof),
    ensures
        ({
            let first = stream_run(s, a);
            let second = stream_run(first.0, a.skip(first.1) + b);
            stream_run(s, a + b) == (second.0, first.1 + second.1, second.2)
        }),
{
    match s.phase {
        StreamPhase::Head => {
            let e = buffer::head_end();
            text::lemma_first_occurrence(a, e);
            match text::first_occurrence(a, e) {
                None => {
                    assert(a.skip(0) + b =~= a + b);
                },
                Some(i) => {
                    assert((a + b).subrange(i, i + 4) =~= a.subrange(i, i + 4));
                    assert forall|j: int| 0 <= j < i implies !text::occurs_at(a + b, e, j) by {
                        assert((a + b).subrange(j, j + 4) =~= a.subrange(j, j + 4));
                        assert(!text::occurs_at(a, e, j));
                    }
                    text::lemma_is_first_occurrence(a + b, e, i);
                    assert((a + b).take(i) =~= a.take(i));
                    let r = stream_step(s, a);
                    assert(stream_step(s, a + b) == r);
                    let rest = a.skip(r.1);
                    assert((a + b).skip(r.1) =~= rest + b);
                    if r.0.phase is UntilEof {
                        lemma_kind_stays(r.0, rest);
                    }
                    lemma_body_in_pieces(r.0, rest, b);
                    let inner = stream_run(r.0, rest);
                    lemma_stream_run(r.0, rest);
                    assert(a.skip(r.1 + inner.1) =~= rest.skip(inner.1));
                },
            }
        },
        _ => {
            if s.phase is UntilEof {
                lemma_kind_stays(s, a);
            }
            lemma_body_in_pieces(s, a, b);
        },
    }
}

proof fn lemma_stream_run(s: ResponseStreamer, buf: Seq<u8>)
    ensures
        0 <= stream_run(s, buf).1 <= buf.len(),
    decreases buf.len(), stream_rank(s.phase),
{
    lemma_stream_step(s, buf);
    let r = stream_step(s, buf);
    if r.2 == StreamVerdict::Continue {
        lemma_stream_run(r.0, buf.skip(r.1));
    }
}

proof fn lemma_kind_stays(s: ResponseStreamer, buf: Seq<u8>)
    requires
        stream_run(s, buf).2 == StreamVerdict::NeedRead,
        s.phase is UntilEof,
    ensures
        stream_run(s, buf).0.phase is UntilEof,
        stream_run(s, buf).0.max_body == s.max_body,
    decreases buf.len(),
{
    let r = stream_step(s, buf);
    if r.2 == StreamVerdict::Continue {
        lemma_kind_stays(r.0, buf.skip(r.1));
    }
}

// ---------------------------------------------------------------------------
// Heads as upstreams write them
// ---------------------------------------------------------------------------

/// Whether a field of the given name, which is in lower case, says the text,
/// both up to case.
pub open spec fn field_says(
    fs: Seq<(Seq<char>, Seq<char>)>,
    name: Seq<char>,
    what: Seq<char>,
) -> bool {
    exists|i: int|
        0 <= i < fs.len() && text::lower((#[trigger] fs[i]).0) == name && text::has_text(
            text::lower(fs[i].1),
            what,
        )
}

/// Whether the last field that is named `Content-Length`, up to case, gives the
/// number.
pub open spec fn length_given(fs: Seq<(Seq<char>, Seq<char>)>, n: nat) -> bool {
    exists|i: int|
        0 <= i < fs.len() && text::lower((#[trigger] fs[i]).0) == "content-length"@ && fs[i].1
            == number::decimal(n) && forall|j: int|
            i < j < fs.len() ==> text::lower((#[trigger] fs[j]).0) != "content-length"@
}

/// Whether no field is named `Content-Length`.
pub open spec fn no_length_given(fs: Seq<(Seq<char>, Seq<char>)>) -> bool {
    forall|i: int| 0 <= i < fs.len() ==> text::lower((#[trigger] fs[i]).0) != "content-length"@
}

proof fn lemma_prefixes()
    ensures
        "content-length:"@ == "content-length"@.push(':'),
        "connection:"@ == "connection"@.push(':'),
        "transfer-encoding:"@ == "transfer-encoding"@.push(':'),
        !"content-length"@.contains(':'),
        !"connection"@.contains(':'),
        !"transfer-encoding"@.contains(':'),
{
    reveal_strlit("content-length:");
    reveal_strlit("content-length");
    reveal_strlit("connection:");
    reveal_strlit("connection");
    reveal_strlit("transfer-encoding:");
    reveal_strlit("transfer-encoding");
    assert("content-length:"@ =~= "content-length"@.push(':'));
    assert("connection:"@ =~= "connection"@.push(':'));
    assert("transfer-encoding:"@ =~= "transfer-encoding"@.push(':'));
}

proof fn lemma_says(
    fs: Seq<(Seq<char>, Seq<char>)>,
    name: Seq<char>,
    what: Seq<char>,
)
    requires
        written::all_clean(fs),
        !name.contains(':'),
    ensures
        headers::some_line_says(written::bare_lines(fs), name.push(':'), what) == field_says(
            fs,
            name,
            what,
        ),
{
    let ls = written::bare_lines(fs);
    assert forall|i: int| 0 <= i < fs.len() implies headers::line_says(
        #[trigger] ls[i],
        name.push(':'),
        what,
    ) == (text::lower(fs[i].0) == name && text::has_text(text::lower(fs[i].1), what)) by {
        assert(written::clean_field(fs[i]));
        written::field_is_found_by_name(fs[i], name);
    }
    if field_says(fs, name, what) {
        let i = choose|i: int|
            0 <= i < fs.len() && text::lower((#[trigger] fs[i]).0) == name && text::has_text(
                text::lower(fs[i].1),
                what,
            );
        assert(headers::line_says(ls[i], name.push(':'), what));
    }
    if headers::some_line_says(ls, name.push(':'), what) {
        let i = choose|i: int|
            0 <= i < ls.len() && headers::line_says(#[trigger] ls[i], name.push(':'), what);
        assert(text::lower(fs[i].0) == name);
    }
}

proof fn lemma_lower_digits(n: nat)
    ensures
        text::lower(number::decimal(n)) == number::decimal(n),
{
    number::lemma_digits_plain(n);
    assert(text::lower(number::decimal(n)) =~= number::decimal(n));
}

pub proof fn lemma_last_number(fs: Seq<(Seq<char>, Seq<char>)>, n: nat)
    requires
        written::all_clean(fs),
        n <= usize::MAX,
    ensures
        length_given(fs, n) ==> headers::last_number(
            written::bare_lines(fs),
            "content-length:"@,
        ) == Some(n),
        no_length_given(fs) ==> headers::last_number(written::bare_lines(fs), "content-length:"@)
            is None,
    decreases fs.len(),
{
    lemma_prefixes();
    let ls = written::bare_lines(fs);
    if fs.len() > 0 {
        let rest = fs.drop_last();
        let f = fs[fs.len() - 1];
        assert(ls.drop_last() =~= written::bare_lines(rest));
        assert(ls.last() == written::bare_line(f));
        assert(written::clean_field(f));
        assert(written::all_clean(rest)) by {
            assert forall|i: int| 0 <= i < rest.len() implies written::clean_field(
                #[trigger] rest[i],
            ) by {
                assert(rest[i] == fs[i]);
            }
        }
        written::field_is_found_by_name(f, "content-length"@);
        lemma_last_number(rest, n);
        lemma_lower_digits(n);
        number::decimal_reads_back(n, usize::MAX as nat);
        assert(forall|i: int| 0 <= i < rest.len() ==> #[trigger] rest[i] == fs[i]);
        if length_given(fs, n) {
            let i = choose|i: int|
                0 <= i < fs.len() && text::lower((#[trigger] fs[i]).0) == "content-length"@
                    && fs[i].1 == number::decimal(n) && forall|j: int|
                    i < j < fs.len() ==> text::lower((#[trigger] fs[j]).0) != "content-length"@;
            if i < rest.len() {
                assert(text::lower(fs[fs.len() - 1].0) != "content-length"@);
                assert(text::lower(rest[i].0) == "content-length"@);
                assert(length_given(rest, n));
            }
        }
    }
}

/// A head is read as it was written: names of fields count up to case, the last
/// `Content-Length` counts, `Connection` and `Transfer-Encoding` may say several
/// things, and the status is the second word of the first line.
pub proof fn head_is_understood(
    line: Seq<char>,
    fs: Seq<(Seq<char>, Seq<char>)>,
    head: Seq<char>,
    n: nat,
    version: Seq<char>,
    c: u16,
    reason: Seq<char>,
)
    requires
        !line.contains('\n'),
        written::all_clean(fs),
        head + "\r\n"@ == written::head_text(line, fs),
        n <= usize::MAX,
    ensures
        length_given(fs, n) ==> info_of(head).content_length == Some(n as usize),
        no_length_given(fs) ==> info_of(head).content_length is None,
        info_of(head).connection_close == field_says(fs, "connection"@, "close"@),
        info_of(head).connection_keep_alive == field_says(fs, "connection"@, "keep-alive"@),
        info_of(head).is_chunked == field_says(fs, "transfer-encoding"@, "chunked"@),
        info_of(head).is_http10 == text::has_text(line, "HTTP/1.0"@),
        is_status_line(line, version, c, reason) ==> info_of(head).status_code == Some(c),
{
    written::written_head_reads_back(line, fs);
    assert(headers::header_lines(head) == written::bare_lines(fs));
    lemma_prefixes();
    lemma_last_number(fs, n);
    lemma_says(fs, "connection"@, "close"@);
    lemma_says(fs, "connection"@, "keep-alive"@);
    lemma_says(fs, "transfer-encoding"@, "chunked"@);
    if is_status_line(line, version, c, reason) {
        let digits = number::decimal(c as nat);
        number::lemma_digits_plain(c as nat);
        number::decimal_reads_back(c as nat, u16::MAX as nat);
        assert forall|i: int| 0 <= i < digits.len() implies !text::is_white(#[trigger] digits[i]) by {
            assert('0' <= digits[i] <= '9');
        }
        reveal_strlit(" ");
        text::lemma_word(digits, reason);
        text::lemma_leading_white(' ', digits + reason);
        let rest = seq![' '] + (digits + reason);
        text::lemma_word(version, rest);
        assert(line =~= version + rest);
        assert(text::words(line)[1] == digits);
    }
}

/// Whether a line is a status line: a version, the status, and what follows it.
pub open spec fn is_status_line(
    line: Seq<char>,
    version: Seq<char>,
    c: u16,
    reason: Seq<char>,
) -> bool {
    &&& line == version + " "@ + number::decimal(c as nat) + reason
    &&& version.len() > 0
    &&& forall|i: int| 0 <= i < version.len() ==> !text::is_white(#[trigger] version[i])
    &&& reason.len() == 0 || reason[0] == ' '
}

/// To a request that is not `HEAD`, a response of known length is passed on
/// with as many bytes of body as it announces, unless its status is 1xx, 204 or
/// 304: those have no body. No other status is an exception. The connection is
/// kept unless the upstream says that it closes it.
pub proof fn body_follows_its_head(
    s: ResponseStreamer,
    version: Seq<char>,
    c: u16,
    reason: Seq<char>,
    fs: Seq<(Seq<char>, Seq<char>)>,
    text_of_head: Seq<char>,
    head: Seq<u8>,
    body: Seq<u8>,
    rest: Seq<u8>,
)
    requires
        s.phase == StreamPhase::Head,
        !s.head_request,
        s.max_body == 0 || body.len() <= s.max_body,
        body.len() <= usize::MAX,
        !(version + " "@ + number::decimal(c as nat) + reason).contains('\n'),
        is_status_line(
            version + " "@ + number::decimal(c as nat) + reason,
            version,
            c,
            reason,
        ),
        !text::has_text(version + " "@ + number::decimal(c as nat) + reason, "HTTP/1.0"@),
        written::all_clean(fs),
        length_given(fs, body.len()),
        !field_says(fs, "transfer-encoding"@, "chunked"@),
        text_of_head + "\r\n"@ == written::head_text(
            version + " "@ + number::decimal(c as nat) + reason,
            fs,
        ),
        encoding::lossy_text(head) == text_of_head,
        whole_head(head),
    ensures
        ({
            let sent = if 100 <= c <= 199 || c == 204 || c == 304 {
                head + seq![13u8, 10u8, 13u8, 10u8]
            } else {
                head + seq![13u8, 10u8, 13u8, 10u8] + body
            };
            let r = stream_run(s, head + seq![13u8, 10u8, 13u8, 10u8] + body + rest);
            &&& r.1 == sent.len()
            &&& r.2 == StreamVerdict::Done(!field_says(fs, "connection"@, "close"@))
        }),
{
    let line = version + " "@ + number::decimal(c as nat) + reason;
    head_is_understood(line, fs, text_of_head, body.len(), version, c, reason);
    assert(head + buffer::head_end() + body + rest =~= head + buffer::head_end() + (body + rest));
    if 100 <= c <= 199 || c == 204 || c == 304 {
        bodiless_response_is_its_head(s, head, body + rest);
    } else {
        length_is_kept(s, head, body, rest);
    }
}

/// The connection is used again after a complete response of HTTP/1.0 only if
/// the upstream says that it keeps it, and after any other unless it says that
/// it closes it.
pub proof fn connection_is_kept_as_told(info: ResponseInfo)
    ensures
        info.connection_close ==> !reusable_after(info),
        !info.connection_close && !info.is_http10 ==> reusable_after(info),
        !info.connection_close && info.is_http10 ==> reusable_after(info)
            == info.connection_keep_alive,
{
}

/// The response to a `HEAD` request is its head, whatever its status and fields
/// are.
pub proof fn head_request_gets_the_head(s: ResponseStreamer, head: Seq<u8>, rest: Seq<u8>)
    requires
        s.phase == StreamPhase::Head,
        s.head_request,
        whole_head(head),
    ensures
        stream_run(s, head + seq![13u8, 10u8, 13u8, 10u8] + rest).1 == head.len() + 4,
        stream_run(s, head + seq![13u8, 10u8, 13u8, 10u8] + rest).2 is Done,
{
    bodiless_response_is_its_head(s, head, rest);
}

/// A response that breaks off inside a body of known length is passed on as far
/// as it came, and the connection is not used again. Inside a head or a chunked
/// body it is given up.
pub proof fn cut_off_response_ends_the_connection(
    s: ResponseStreamer,
    left: usize,
    scanner: ChunkScanner,
    buf: Seq<u8>,
)
    requires
        buf.len() < left,
    ensures
        ({
            let t = ResponseStreamer { phase: StreamPhase::Length(left), ..s };
            let r = stream_run(t, buf);
            r.1 == buf.len() && r.2 == StreamVerdict::NeedRead && at_eof(r.0)
                == StreamVerdict::Done(false)
        }),
        at_eof((ResponseStreamer { phase: StreamPhase::Head, ..s })) is Fail,
        at_eof((ResponseStreamer { phase: StreamPhase::Chunked(scanner), ..s })) is Fail,
{
    lemma_length_run((ResponseStreamer { phase: StreamPhase::Length(left), ..s }), left, buf);
}

/// A limit of zero is none; any other is held: a head that goes on beyond it,
/// an announced length above it, and a body of unknown length that grows beyond
/// it are given up, and nothing else is given up for its size.
pub proof fn limits_are_held(s: ResponseStreamer, info: ResponseInfo, seen: usize, buf: Seq<u8>)
    requires
        buf.len() > 0,
    ensures
        ({
            let t = ResponseStreamer { phase: StreamPhase::Head, ..s };
            text::first_occurrence(buf, seq![13u8, 10u8, 13u8, 10u8]) is None ==> stream_step(t, buf).2
                == (if s.max_headers != 0 && buf.len() > s.max_headers {
                StreamVerdict::Fail(StreamFault::HeadersTooLarge)
            } else {
                StreamVerdict::NeedRead
            })
        }),
        info.content_length is Some && !bodiless(s, info) && !info.is_chunked ==> (
        after_head(s, info).1 == StreamVerdict::Fail(StreamFault::BodyTooLarge) <==> s.max_body != 0
            && info.content_length->0 > s.max_body),
        ({
            let t = ResponseStreamer { phase: StreamPhase::UntilEof(seen), ..s };
            stream_step(t, buf).2 == (if s.max_body != 0 && seen + buf.len() > s.max_body {
                StreamVerdict::Fail(StreamFault::BodyTooLarge)
            } else {
                StreamVerdict::Continue
            })
        }),
{
}

/// Bytes stay where they are while more is awaited of a head or of a body, and
/// where either is given up for its size.
pub proof fn awaited_bytes_stay(s: ResponseStreamer, seen: usize, left: usize, buf: Seq<u8>)
    ensures
        ({
            let t = ResponseStreamer { phase: StreamPhase::Head, ..s };
            text::first_occurrence(buf, seq![13u8, 10u8, 13u8, 10u8]) is None ==> stream_step(t, buf).0
                == t && stream_step(t, buf).1 == 0
        }),
        ({
            let t = ResponseStreamer { phase: StreamPhase::UntilEof(seen), ..s };
            stream_step(t, buf).2 != StreamVerdict::Continue ==> stream_step(t, buf).0 == t
                && stream_step(t, buf).1 == 0
        }),
        ({
            let t = ResponseStreamer { phase: StreamPhase::UntilEof(seen), ..s };
            stream_step(t, buf).2 == StreamVerdict::Continue ==> stream_step(t, buf).1 == buf.len()
        }),
        ({
            let t = ResponseStreamer { phase: StreamPhase::Length(left), ..s };
            buf.len() == 0 && left > 0 ==> stream_step(t, buf) == (t, 0int, StreamVerdict::NeedRead)
        }),
        ({
            let t = ResponseStreamer { phase: StreamPhase::End, ..s };
            stream_step(t, buf) == (t, 0int, StreamVerdict::Done(s.reusable))
        }),
{
}

} // verus!
