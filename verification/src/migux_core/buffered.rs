//! Connections whose requests are read whole, body and all, before they are
//! served.
use super::request::{self, ReadOutcome};
use super::routing::{self, match_location_index, select_default_server};
use super::structs::{RuntimeView, ServerRuntime};
use crate::buffer::{self, buffer_slice, copy_bytes, find_headers_end};
use crate::encoding::{self, lossy};
use crate::headers::{
    self, any_line_says, find_last_number, first_line, head_lines, word_string,
};
use crate::migux_config::location::LocationType;
use crate::migux_http::responses::Refusal;
use crate::migux_proxy::response;
use crate::text::{self, chars_of, is_empty, same_str, split_words};
use crate::written;
use bytes::BytesMut;
use vstd::prelude::*;
use vstd::slice::slice_subrange;

verus! {

/// What the head of a request says.
#[derive(Debug)]
pub struct Metadata {
    pub method: String,
    pub path: String,
    pub http_version: String,
    pub content_length: usize,
    pub close_after: bool,
}

/// The same, as texts and numbers.
#[verifier::ext_equal]
pub struct MetadataView {
    pub method: Seq<char>,
    pub path: Seq<char>,
    pub http_version: Seq<char>,
    pub content_length: nat,
    pub close_after: bool,
}

impl View for Metadata {
    type V = MetadataView;

    open spec fn view(&self) -> MetadataView {
        MetadataView {
            method: self.method@,
            path: self.path@,
            http_version: self.http_version@,
            content_length: self.content_length as nat,
            close_after: self.close_after,
        }
    }
}

/// Whether the connection is closed after the request: with HTTP/1.0 unless
/// it is to be kept, else only where that is asked for.
pub open spec fn closes(version: Seq<char>, ls: Seq<Seq<char>>) -> bool {
    if version == "HTTP/1.0"@ {
        !headers::some_line_says(ls, "connection:"@, "keep-alive"@)
    } else {
        headers::some_line_says(ls, "connection:"@, "close"@)
    }
}

/// What the head of a request says. The last `Content-Length` that is a number
/// counts.
pub open spec fn metadata_of(head: Seq<char>) -> MetadataView {
    let line = headers::start_line(head);
    let ls = headers::header_lines(head);
    let version = headers::word_or(line, 2, "HTTP/1.1"@);
    MetadataView {
        method: headers::word_or(line, 0, "-"@),
        path: headers::word_or(line, 1, "/"@),
        http_version: version,
        content_length: match headers::last_number(ls, "content-length:"@) {
            Some(n) => n,
            None => 0,
        },
        close_after: closes(version, ls),
    }
}

/// Reads the request line and the headers of a request.
pub fn parse_request_metadata(head: &str) -> (r: Metadata)
    ensures
        r@ == metadata_of(head@),
{
    let hc = chars_of(head);
    let ls = head_lines(hc.as_slice());
    let line = first_line(&ls, hc.as_slice());
    let words = split_words(line);
    let method = word_string(&words, 0, "-");
    let path = word_string(&words, 1, "/");
    let http_version = word_string(&words, 2, "HTTP/1.1");
    let from: usize = if ls.len() == 0 {
        0
    } else {
        1
    };
    assert(text::views(ls@).skip(from as int) =~= headers::header_lines(head@));
    let content_length: usize = match find_last_number(&ls, from, "content-length:") {
        Some(n) => n,
        None => 0,
    };
    let close_after = if same_str(http_version.as_str(), "HTTP/1.0") {
        !any_line_says(&ls, from, "connection:", "keep-alive")
    } else {
        any_line_says(&ls, from, "connection:", "close")
    };
    Metadata { method, path, http_version, content_length, close_after }
}

/// A request with its body.
#[derive(Debug)]
pub struct ParsedRequest {
    pub headers: String,
    pub body: Vec<u8>,
    pub method: String,
    pub path: String,
    pub close_after: bool,
}

/// The same, as texts.
#[verifier::ext_equal]
pub struct RequestView {
    pub headers: Seq<char>,
    pub body: Seq<u8>,
    pub method: Seq<char>,
    pub path: Seq<char>,
    pub close_after: bool,
}

impl View for ParsedRequest {
    type V = RequestView;

    open spec fn view(&self) -> RequestView {
        RequestView {
            headers: self.headers@,
            body: self.body@,
            method: self.method@,
            path: self.path@,
            close_after: self.close_after,
        }
    }
}

/// What to do next to get a request.
#[derive(Debug)]
pub enum RequestStep {
    /// Read more; `idle` where nothing of the request has come yet.
    Read { idle: bool },
    /// Answer with the refusal and close the connection.
    Refuse(Refusal),
    /// Close the connection without an answer.
    Close,
    /// The request is complete.
    Request(ParsedRequest),
}

/// A step, as texts.
pub enum StepView {
    Read { idle: bool },
    Refuse(Refusal),
    Close,
    Request(RequestView),
}

impl View for RequestStep {
    type V = StepView;

    open spec fn view(&self) -> StepView {
        match *self {
            RequestStep::Read { idle } => StepView::Read { idle },
            RequestStep::Refuse(k) => StepView::Refuse(k),
            RequestStep::Close => StepView::Close,
            RequestStep::Request(q) => StepView::Request(q@),
        }
    }
}

/// What the bytes received so far lead to, and how many of them are used. A
/// limit of zero is none.
pub open spec fn step_of(buf: Seq<u8>, max_headers: nat, max_body: nat) -> (StepView, nat) {
    match text::first_occurrence(buf, buffer::head_end()) {
        Some(i) => {
            let head = encoding::lossy_text(buf.take(i));
            let m = metadata_of(head);
            let total = (i + 4 + m.content_length) as nat;
            if max_body > 0 && m.content_length > max_body {
                (StepView::Refuse(Refusal::PayloadTooLarge), 0)
            } else if buf.len() < total {
                (StepView::Read { idle: false }, 0)
            } else {
                (
                    StepView::Request(
                        (RequestView {
                            headers: head,
                            body: buf.subrange(i + 4, total as int),
                            method: m.method,
                            path: m.path,
                            close_after: m.close_after,
                        }),
                    ),
                    total,
                )
            }
        },
        None => if max_headers > 0 && buf.len() > max_headers {
            (StepView::Refuse(Refusal::HeadersTooLarge), 0)
        } else {
            (StepView::Read { idle: buf.len() == 0 }, 0)
        },
    }
}

/// The next step, given what became of the last attempt to read.
pub open spec fn step_after(
    buf: Seq<u8>,
    last: Option<ReadOutcome>,
    max_headers: nat,
    max_body: nat,
) -> (StepView, nat) {
    match last {
        Some(ReadOutcome::Timeout) => if buf.len() == 0 {
            (StepView::Close, 0)
        } else {
            (StepView::Refuse(Refusal::RequestTimeout), 0)
        },
        Some(ReadOutcome::Read(n)) => if n == 0 {
            (StepView::Close, 0)
        } else {
            step_of(buf, max_headers, max_body)
        },
        None => step_of(buf, max_headers, max_body),
    }
}

/// Takes one step in reading a request with its body. A complete request
/// leaves the buffer. The caller starts with `None`, and answers every `Read`
/// with what became of the attempt.
pub fn read_http_request(
    buf: &mut BytesMut,
    last: Option<ReadOutcome>,
    max_headers: u64,
    max_body: u64,
) -> (r: RequestStep)
    ensures
        r@ == step_after(
            buffer::buffered(*old(buf)),
            last,
            max_headers as nat,
            max_body as nat,
        ).0,
        buffer::buffered(*final(buf)) == buffer::buffered(*old(buf)).skip(
            step_after(
                buffer::buffered(*old(buf)),
                last,
                max_headers as nat,
                max_body as nat,
            ).1 as int,
        ),
{
    let ghost all = buffer::buffered(*buf);
    assert(all.skip(0) =~= all);
    let b = buffer_slice(buf);
    let len: usize = b.len();
    match last {
        Some(ReadOutcome::Timeout) => {
            if len == 0 {
                return RequestStep::Close;
            }
            return RequestStep::Refuse(Refusal::RequestTimeout);
        },
        Some(ReadOutcome::Read(n)) => {
            if n == 0 {
                return RequestStep::Close;
            }
        },
        None => {},
    }
    let end: usize = match find_headers_end(b) {
        Some(end) => end,
        None => {
            if max_headers > 0 && len as u64 > max_headers {
                return RequestStep::Refuse(Refusal::HeadersTooLarge);
            }
            return RequestStep::Read { idle: len == 0 };
        },
    };
    let head = lossy(slice_subrange(b, 0, end));
    assert(b@.subrange(0, end as int) =~= b@.take(end as int));
    let m = parse_request_metadata(head.as_str());
    if max_body > 0 && m.content_length as u64 > max_body {
        return RequestStep::Refuse(Refusal::PayloadTooLarge);
    }
    if m.content_length > len - (end + 4) {
        return RequestStep::Read { idle: false };
    }
    let total: usize = end + 4 + m.content_length;
    let taken = buf.split_to(total);
    let t = buffer_slice(&taken);
    let body = copy_bytes(slice_subrange(t, end + 4, total));
    assert(body@ =~= all.subrange(end + 4, total as int));
    RequestStep::Request(
        ParsedRequest { headers: head, body, method: m.method, path: m.path, close_after: m.close_after },
    )
}

/// What is done with a request.
#[derive(Clone, Copy, Debug, PartialEq, Eq, Structural)]
pub enum RequestPlan {
    /// The connection is closed without an answer.
    Close,
    /// The request is answered as if nothing were there, and the connection is
    /// closed.
    Refuse,
    /// The location at the given place serves a file; the connection is closed.
    Static(usize),
    /// The request goes to the upstream of the location at the given place.
    Proxy { location: usize, close_after: bool },
}

/// What is done with a request to a server.
pub open spec fn planned(rq: RequestView, server: RuntimeView) -> RequestPlan {
    let i = routing::routed(server.locations, rq.path);
    if rq.headers.len() == 0 {
        RequestPlan::Close
    } else if server.locations.len() == 0 {
        RequestPlan::Refuse
    } else {
        match server.locations[i].kind {
            LocationType::Static => if rq.method == "GET"@ || rq.method == "HEAD"@ {
                RequestPlan::Static(i as usize)
            } else {
                RequestPlan::Refuse
            },
            LocationType::Proxy => RequestPlan::Proxy {
                location: i as usize,
                close_after: rq.close_after,
            },
        }
    }
}

/// Decides what is done with a request on a listener with the given servers.
pub fn plan_request(servers: &[ServerRuntime], req: &ParsedRequest) -> (r: RequestPlan)
    requires
        servers@.len() > 0,
    ensures
        r == planned(req@, servers@[0].deep_view()),
        match r {
            RequestPlan::Static(i) => i < servers@[0].locations@.len(),
            RequestPlan::Proxy { location, .. } => location < servers@[0].locations@.len(),
            _ => true,
        },
{
    if is_empty(req.headers.as_str()) {
        return RequestPlan::Close;
    }
    let server = select_default_server(servers);
    if server.locations.len() == 0 {
        return RequestPlan::Refuse;
    }
    let i = match_location_index(server.locations.as_slice(), req.path.as_str());
    assert(server.deep_view().locations[i as int] == server.locations@[i as int].deep_view());
    match server.locations[i].kind {
        LocationType::Static => {
            if !same_str(req.method.as_str(), "GET") && !same_str(req.method.as_str(), "HEAD") {
                return RequestPlan::Refuse;
            }
            RequestPlan::Static(i)
        },
        LocationType::Proxy => RequestPlan::Proxy { location: i, close_after: req.close_after },
    }
}

/// A request takes from the buffer its head, the empty line and as many bytes
/// as its length says; what follows is left for the next one.
pub proof fn request_takes_its_bytes(
    head: Seq<u8>,
    body: Seq<u8>,
    next: Seq<u8>,
    max_headers: nat,
    max_body: nat,
)
    requires
        text::first_occurrence(head + buffer::head_end() + body + next, buffer::head_end()) == Some(
            head.len() as int,
        ),
        metadata_of(encoding::lossy_text(head)).content_length == body.len(),
        max_body == 0 || body.len() <= max_body,
    ensures
        ({
            let buf = head + buffer::head_end() + body + next;
            let s = step_of(buf, max_headers, max_body);
            s.0 matches StepView::Request(q) && q.body == body && buf.skip(s.1 as int) == next
        }),
{
    let buf = head + buffer::head_end() + body + next;
    assert(buf.take(head.len() as int) =~= head);
    assert(buf.subrange((head.len() + 4) as int, (head.len() + 4 + body.len()) as int) =~= body);
    assert(buf.skip((head.len() + 4 + body.len()) as int) =~= next);
}

// ---------------------------------------------------------------------------
// Requests as clients write them
// ---------------------------------------------------------------------------

/// The head of a request is read as it was written: the last `Content-Length`
/// counts, and without one the body is empty. The connection is closed behind a
/// request of HTTP/1.0 unless it says that it is kept, and behind any other only
/// where it says so.
pub proof fn metadata_is_what_was_written(
    method: Seq<char>,
    path: Seq<char>,
    version: Seq<char>,
    fs: Seq<(Seq<char>, Seq<char>)>,
    head: Seq<char>,
    n: nat,
)
    requires
        request::is_word(method),
        request::is_word(path),
        request::is_word(version),
        written::all_clean(fs),
        head + "\r\n"@ == written::head_text(method + " "@ + path + " "@ + version, fs),
        n <= usize::MAX,
    ensures
        metadata_of(head).method == method,
        metadata_of(head).path == path,
        metadata_of(head).http_version == version,
        response::length_given(fs, n) ==> metadata_of(head).content_length == n,
        response::no_length_given(fs) ==> metadata_of(head).content_length == 0,
        version == "HTTP/1.0"@ ==> metadata_of(head).close_after == !response::field_says(
            fs,
            "connection"@,
            "keep-alive"@,
        ),
        version != "HTTP/1.0"@ ==> metadata_of(head).close_after == response::field_says(
            fs,
            "connection"@,
            "close"@,
        ),
{
    let line = method + " "@ + path + " "@ + version;
    request::request_line_is_read(method, path, version);
    written::written_head_reads_back(line, fs);
    assert(headers::start_line(head) == line);
    assert(headers::header_lines(head) == written::bare_lines(fs));
    response::lemma_last_number(fs, n);
    response::head_is_understood(line, fs, head, n, seq![], 0, seq![]);
}

/// A request is handed on once its head and as many bytes of body as it announces
/// are there, and these are taken from the buffer; before that more is read. A body
/// above a limit that is not zero is refused, and so is a head that is not complete
/// behind one.
pub proof fn request_is_awaited(
    head: Seq<u8>,
    body: Seq<u8>,
    next: Seq<u8>,
    k: int,
    max_headers: nat,
    max_body: nat,
)
    requires
        text::first_occurrence(
            head + seq![13u8, 10u8, 13u8, 10u8] + body + next,
            seq![13u8, 10u8, 13u8, 10u8],
        ) == Some(head.len() as int),
        text::first_occurrence(
            head + seq![13u8, 10u8, 13u8, 10u8] + body.take(k),
            seq![13u8, 10u8, 13u8, 10u8],
        ) == Some(head.len() as int),
        metadata_of(encoding::lossy_text(head)).content_length == body.len(),
        0 <= k < body.len() || k == body.len() == 0,
    ensures
        ({
            let m = metadata_of(encoding::lossy_text(head));
            let whole = head + seq![13u8, 10u8, 13u8, 10u8] + body + next;
            let cut = head + seq![13u8, 10u8, 13u8, 10u8] + body.take(k);
            if max_body != 0 && body.len() > max_body {
                step_of(whole, max_headers, max_body).0 == StepView::Refuse(Refusal::PayloadTooLarge)
                    && step_of(cut, max_headers, max_body).0 == StepView::Refuse(
                    Refusal::PayloadTooLarge,
                )
            } else {
                &&& step_of(whole, max_headers, max_body) == (
                    StepView::Request(
                        (RequestView {
                            headers: encoding::lossy_text(head),
                            body,
                            method: m.method,
                            path: m.path,
                            close_after: m.close_after,
                        }),
                    ),
                    (head.len() + 4 + body.len()) as nat,
                )
                &&& k < body.len() ==> step_of(cut, max_headers, max_body) == (
                    (StepView::Read { idle: false }),
                    0nat,
                )
            }
        }),
{
    let whole = head + seq![13u8, 10u8, 13u8, 10u8] + body + next;
    let cut = head + seq![13u8, 10u8, 13u8, 10u8] + body.take(k);
    let n = head.len() as int;
    assert(whole.take(n) =~= head);
    assert(cut.take(n) =~= head);
    assert(whole.subrange(n + 4, n + 4 + body.len()) =~= body);
}

/// Without a complete head more is read, unless the head exceeds a limit that is
/// not zero. A client that sends nothing in time, or closes, is left; one that
/// stops inside a head is told so. Nothing is taken from the buffer.
pub proof fn head_is_awaited(buf: Seq<u8>, n: usize, max_headers: nat, max_body: nat)
    requires
        text::first_occurrence(buf, seq![13u8, 10u8, 13u8, 10u8]) is None,
        n > 0,
    ensures
        step_of(buf, max_headers, max_body) == (if max_headers != 0 && buf.len() > max_headers {
            (StepView::Refuse(Refusal::HeadersTooLarge), 0nat)
        } else {
            ((StepView::Read { idle: buf.len() == 0 }), 0nat)
        }),
        step_after(buf, None, max_headers, max_body) == step_of(buf, max_headers, max_body),
        step_after(buf, Some(ReadOutcome::Read(n)), max_headers, max_body) == step_of(
            buf,
            max_headers,
            max_body,
        ),
        step_after(buf, Some(ReadOutcome::Read(0)), max_headers, max_body) == (StepView::Close, 0nat),
        step_after(buf, Some(ReadOutcome::Timeout), max_headers, max_body) == (if buf.len() == 0 {
            (StepView::Close, 0nat)
        } else {
            (StepView::Refuse(Refusal::RequestTimeout), 0nat)
        }),
{
}

/// A request goes to the location that routing gives: a static one serves `GET`
/// and `HEAD` alone, a proxy takes every method.
pub proof fn request_goes_to_its_location(rq: RequestView, server: RuntimeView)
    requires
        rq.headers.len() > 0,
    ensures
        ({
            let i = routing::routed(server.locations, rq.path);
            let p = planned(rq, server);
            if server.locations.len() == 0 {
                p == RequestPlan::Refuse
            } else if server.locations[i].kind == LocationType::Proxy {
                p == (RequestPlan::Proxy { location: i as usize, close_after: rq.close_after })
            } else if rq.method == "GET"@ || rq.method == "HEAD"@ {
                p == RequestPlan::Static(i as usize)
            } else {
                p == RequestPlan::Refuse
            }
        }),
{
}

} // verus!
