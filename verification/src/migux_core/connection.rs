//! The life of a connection: what each request on it is answered with, and
//! whether another one follows.
use super::request::{
    self, extract_host_header, read_http_request, ParsedRequest, ReadOutcome, RequestStep,
    RequestView,
};
use super::routing::{self, match_location_index, select_default_server};
use super::structs::{RuntimeView, ServerRuntime};
use crate::buffer::{self, buffer_advance};
use crate::chunked;
use crate::encoding;
use crate::migux_config::http::HttpConfig;
use crate::migux_http::responses::{
    self, build_405_with_allow, build_redirect, build_refusal, build_response, Refusal,
};
use crate::migux_static::cache::CacheMetrics;
use crate::migux_static::fs::strip_query;
use crate::number::{self, push_decimal};
use crate::text::{
    self, chars_of, drop_trailing, find_char, head_to, is_empty, same_str, spells, string_of,
    tail_from, trim, Class,
};
use bytes::BytesMut;
use vstd::prelude::*;
use vstd::utf8::*;

verus! {

// ---------------------------------------------------------------------------
// The counters of the caches
// ---------------------------------------------------------------------------

/// Whether a request path asks for the counters of the caches.
pub open spec fn asks_for_metrics(path: Seq<char>) -> bool {
    text::trim_end(text::before(path, '?'), Class::One('/')) == "/_migux/cache"@
}

/// The counters of the caches, as JSON.
pub open spec fn metrics_json(m: CacheMetrics) -> Seq<char> {
    "{\"memory_hits\":"@ + number::decimal(m.memory_hits as nat) + ",\"memory_misses\":"@
        + number::decimal(m.memory_misses as nat) + ",\"disk_hits\":"@ + number::decimal(
        m.disk_hits as nat,
    ) + ",\"disk_misses\":"@ + number::decimal(m.disk_misses as nat) + "}"@
}

/// What a request for the counters is answered with. They are for clients on
/// the same machine only.
pub open spec fn metrics_answer(method: Seq<char>, loopback: bool, m: CacheMetrics) -> Seq<u8> {
    if !loopback {
        responses::refusal_response(Refusal::NotFound)
    } else if method == "HEAD"@ {
        responses::response("200 OK"@, "application/json; charset=utf-8"@, seq![])
    } else if method == "GET"@ {
        responses::response(
            "200 OK"@,
            "application/json; charset=utf-8"@,
            encode_utf8(metrics_json(m)),
        )
    } else {
        encode_utf8(responses::not_allowed_head("GET, HEAD"@))
    }
}

/// Whether a request path asks for the counters of the caches.
pub fn is_cache_metrics_path(path: &str) -> (r: bool)
    ensures
        r == asks_for_metrics(path@),
{
    let plain = strip_query(path);
    let pc = chars_of(plain.as_str());
    spells(drop_trailing(pc.as_slice(), Class::One('/')), "/_migux/cache")
}

/// Writes the counters of the caches as JSON.
pub fn format_cache_metrics(m: &CacheMetrics) -> (r: String)
    ensures
        r@ == metrics_json(*m),
{
    let mut out = String::new();
    out.append("{\"memory_hits\":");
    push_decimal(&mut out, m.memory_hits as u128);
    out.append(",\"memory_misses\":");
    push_decimal(&mut out, m.memory_misses as u128);
    out.append(",\"disk_hits\":");
    push_decimal(&mut out, m.disk_hits as u128);
    out.append(",\"disk_misses\":");
    push_decimal(&mut out, m.disk_misses as u128);
    out.append("}");
    assert(out@ =~= metrics_json(*m));
    out
}

/// Answers a request for the counters of the caches; any other is left alone.
pub fn maybe_handle_cache_metrics(
    method: &str,
    path: &str,
    loopback: bool,
    metrics: &CacheMetrics,
) -> (r: Option<Vec<u8>>)
    ensures
        match r {
            Some(b) => asks_for_metrics(path@) && b@ == metrics_answer(method@, loopback, *metrics),
            None => !asks_for_metrics(path@),
        },
{
    if !is_cache_metrics_path(path) {
        return None;
    }
    if !loopback {
        return Some(build_refusal(Refusal::NotFound));
    }
    if same_str(method, "HEAD") {
        let nothing: Vec<u8> = Vec::new();
        assert(nothing@ =~= seq![]);
        return Some(
            build_response("200 OK", "application/json; charset=utf-8", nothing.as_slice()),
        );
    }
    if same_str(method, "GET") {
        let body = format_cache_metrics(metrics);
        return Some(
            build_response("200 OK", "application/json; charset=utf-8", body.as_str().as_bytes()),
        );
    }
    Some(build_405_with_allow("GET, HEAD"))
}

// ---------------------------------------------------------------------------
// The redirect to TLS
// ---------------------------------------------------------------------------

/// The last position of a character.
pub open spec fn last_pos(s: Seq<char>, c: char) -> Option<int>
    decreases s.len(),
{
    if s.len() == 0 {
        None
    } else if s.last() == c {
        Some(s.len() - 1)
    } else {
        last_pos(s.drop_last(), c)
    }
}

/// Whether all characters are decimal digits.
pub open spec fn all_digits(s: Seq<char>) -> bool {
    forall|i: int| 0 <= i < s.len() ==> '0' <= #[trigger] s[i] <= '9'
}

/// The parts of a host that is not in brackets: what follows the last colon is
/// the port, if it is a number.
pub open spec fn plain_parts(h: Seq<char>) -> (Seq<char>, Option<Seq<char>>) {
    match last_pos(h, ':') {
        Some(i) => if i + 1 < h.len() && all_digits(h.skip(i + 1)) {
            (h.take(i), Some(h.skip(i + 1)))
        } else {
            (h, None)
        },
        None => (h, None),
    }
}

/// The host and the port of a host: an address in brackets is kept whole.
pub open spec fn host_parts(host: Seq<char>) -> (Seq<char>, Option<Seq<char>>) {
    let h = text::trimmed(host);
    let end = text::first_pos(h, ']');
    if h.len() > 0 && h[0] == '[' && end < h.len() {
        let rest = h.skip(end + 1);
        (h.take(end + 1), if rest.len() > 0 && rest[0] == ':' {
            Some(rest.skip(1))
        } else {
            None
        })
    } else {
        plain_parts(h)
    }
}

/// Finds the last position of a character.
fn find_last(s: &[char], c: char) -> (r: Option<usize>)
    ensures
        match r {
            Some(i) => last_pos(s@, c) == Some(i as int) && i < s@.len(),
            None => last_pos(s@, c) is None,
        },
{
    let n: usize = s.len();
    let mut i: usize = n;
    assert(s@.take(n as int) =~= s@);
    while i > 0
        invariant
            i <= s@.len(),
            last_pos(s@, c) == last_pos(s@.take(i as int), c),
        decreases i,
    {
        assert(s@.take(i as int).drop_last() =~= s@.take(i - 1));
        if s[i - 1] == c {
            return Some(i - 1);
        }
        i -= 1;
    }
    None
}

/// Whether all characters are decimal digits.
fn is_number(s: &[char]) -> (r: bool)
    ensures
        r == all_digits(s@),
{
    for i in 0..s.len()
        invariant
            forall|k: int| 0 <= k < i ==> '0' <= #[trigger] s@[k] <= '9',
    {
        if s[i] < '0' || s[i] > '9' {
            return false;
        }
    }
    true
}

/// Splits a host from its port.
pub fn split_host_port(host: &str) -> (r: (String, Option<String>))
    ensures
        (r.0@, r.1.deep_view()) == host_parts(host@),
{
    let hc = chars_of(host);
    let h = trim(hc.as_slice());
    if h.len() > 0 && h[0] == '[' {
        let end: usize = find_char(h, ']');
        if end < h.len() {
            let host_part = string_of(head_to(h, end + 1));
            let rest = tail_from(h, end + 1);
            if rest.len() > 0 && rest[0] == ':' {
                return (host_part, Some(string_of(tail_from(rest, 1))));
            }
            return (host_part, None);
        }
    }
    match find_last(h, ':') {
        Some(i) => {
            let port = tail_from(h, i + 1);
            if port.len() > 0 && is_number(port) {
                return (string_of(head_to(h, i)), Some(string_of(port)));
            }
        },
        None => {},
    }
    (string_of(h), None)
}

/// The address that a request is redirected to.
pub open spec fn https_location(host: Seq<char>, path: Seq<char>, port: Option<u16>) -> Seq<char> {
    match port {
        Some(p) => if p == 443 {
            "https://"@ + host_parts(host).0 + path
        } else {
            "https://"@ + host_parts(host).0 + ":"@ + number::decimal(p as nat) + path
        },
        None => "https://"@ + host_parts(host).0 + path,
    }
}

/// Builds the address that a request is redirected to, from the port that the
/// TLS listen address has. The usual port is left out.
pub fn build_https_redirect(host: &str, path: &str, port: Option<u16>) -> (r: String)
    ensures
        r@ == https_location(host@, path@, port),
{
    let (host_part, _) = split_host_port(host);
    let mut out = String::new();
    out.append("https://");
    out.append(host_part.as_str());
    match port {
        Some(p) => {
            if p != 443 {
                out.append(":");
                push_decimal(&mut out, p as u128);
            }
        },
        None => {},
    }
    out.append(path);
    assert(out@ =~= https_location(host@, path@, port));
    out
}

// ---------------------------------------------------------------------------
// One request
// ---------------------------------------------------------------------------

/// What is done with a request.
#[derive(Debug)]
pub enum RequestPlan {
    /// The connection is closed without an answer.
    Close,
    /// The response is sent and the connection is closed.
    Respond(Vec<u8>),
    /// The request goes to the location at the given place.
    Dispatch(usize),
}

/// What is known of the client and of the listener.
#[derive(Debug, Clone, Copy)]
pub struct Surrounding {
    /// Whether the client is on the same machine.
    pub loopback: bool,
    /// Whether the connection is encrypted.
    pub is_tls: bool,
    /// The port of the server's TLS listen address, where that is an address.
    pub tls_port: Option<u16>,
    /// The counters of the caches.
    pub metrics: CacheMetrics,
}

/// A plan, as texts.
pub enum PlanView {
    Close,
    Respond(Seq<u8>),
    Dispatch(int),
}

impl View for RequestPlan {
    type V = PlanView;

    open spec fn view(&self) -> PlanView {
        match *self {
            RequestPlan::Close => PlanView::Close,
            RequestPlan::Respond(b) => PlanView::Respond(b@),
            RequestPlan::Dispatch(i) => PlanView::Dispatch(i as int),
        }
    }
}

/// The host that a redirect names: that of the request, or the server's name.
pub open spec fn redirect_host(rq: RequestView, server: RuntimeView) -> Seq<char> {
    match request::first_host(crate::headers::header_fields(rq.headers)) {
        Some(h) => h,
        None => server.config.server_name,
    }
}

/// What is done with a request to a server.
pub open spec fn planned(rq: RequestView, server: RuntimeView, w: Surrounding) -> PlanView {
    if rq.headers.len() == 0 {
        PlanView::Close
    } else if asks_for_metrics(rq.path) {
        PlanView::Respond(metrics_answer(rq.method, w.loopback, w.metrics))
    } else if !w.is_tls && server.config.tls is Some && server.config.tls->0.redirect_http {
        PlanView::Respond(
            encode_utf8(
                responses::redirect_text(
                    https_location(redirect_host(rq, server), rq.path, w.tls_port),
                ),
            ),
        )
    } else if server.locations.len() == 0 {
        PlanView::Respond(responses::refusal_response(Refusal::NotFound))
    } else {
        PlanView::Dispatch(routing::routed(server.locations, rq.path))
    }
}

/// Decides what is done with a request on a listener with the given servers.
pub fn plan_request(servers: &[ServerRuntime], req: &ParsedRequest, w: &Surrounding) -> (r:
    RequestPlan)
    requires
        servers@.len() > 0,
    ensures
        r@ == planned(req@, servers@[0].deep_view(), *w),
        r matches RequestPlan::Dispatch(i) ==> i < servers@[0].locations@.len(),
{
    if is_empty(req.headers.as_str()) {
        return RequestPlan::Close;
    }
    match maybe_handle_cache_metrics(
        req.method.as_str(),
        req.path.as_str(),
        w.loopback,
        &w.metrics,
    ) {
        Some(b) => {
            return RequestPlan::Respond(b);
        },
        None => {},
    }
    let server = select_default_server(servers);
    if !w.is_tls {
        match &server.config.tls {
            Some(tls) => {
                if tls.redirect_http {
                    let host = match extract_host_header(req.headers.as_str()) {
                        Some(h) => h,
                        None => server.config.server_name.clone(),
                    };
                    let location = build_https_redirect(
                        host.as_str(),
                        req.path.as_str(),
                        w.tls_port,
                    );
                    return RequestPlan::Respond(build_redirect(location.as_str()));
                }
            },
            None => {},
        }
    }
    if server.locations.len() == 0 {
        return RequestPlan::Respond(build_refusal(Refusal::NotFound));
    }
    RequestPlan::Dispatch(match_location_index(server.locations.as_slice(), req.path.as_str()))
}

/// A request over TLS is never redirected.
pub proof fn tls_is_not_redirected(rq: RequestView, server: RuntimeView, w: Surrounding)
    requires
        w.is_tls,
        rq.headers.len() > 0,
        !asks_for_metrics(rq.path),
        server.locations.len() > 0,
    ensures
        planned(rq, server, w) == PlanView::Dispatch(routing::routed(server.locations, rq.path)),
{
}

/// A client on another machine learns nothing of the counters: the answer does
/// not depend on them.
pub proof fn counters_stay_private(
    rq: RequestView,
    server: RuntimeView,
    w: Surrounding,
    other: CacheMetrics,
)
    requires
        !w.loopback,
    ensures
        planned(rq, server, w) == planned(rq, server, (Surrounding { metrics: other, ..w })),
{
}

// ---------------------------------------------------------------------------
// The connection
// ---------------------------------------------------------------------------

/// A connection: the bytes that came and are not used yet, and whether a
/// request was served on it.
pub struct Connection {
    buf: BytesMut,
    first_request: bool,
}

/// The same, as plain values.
#[verifier::ext_equal]
pub struct ConnectionView {
    pub pending: Seq<u8>,
    pub first_request: bool,
}

impl View for Connection {
    type V = ConnectionView;

    closed spec fn view(&self) -> ConnectionView {
        ConnectionView { pending: buffer::buffered(self.buf), first_request: self.first_request }
    }
}

/// How long to wait for a request, in seconds.
pub open spec fn idle_limit(first_request: bool, http: HttpConfig) -> u64 {
    if first_request {
        http.client_read_timeout_secs
    } else {
        http.keepalive_timeout_secs
    }
}

impl Connection {
    /// A new connection.
    pub fn new() -> (r: Self)
        ensures
            r@ == (ConnectionView { pending: seq![], first_request: true }),
    {
        let r = Connection { buf: BytesMut::new(), first_request: true };
        assert(r@.pending =~= seq![]);
        r
    }

    /// How long to wait for the next request, in seconds.
    pub fn idle_timeout_secs(&self, http: &HttpConfig) -> (r: u64)
        ensures
            r == idle_limit(self@.first_request, *http),
    {
        if self.first_request {
            http.client_read_timeout_secs
        } else {
            http.keepalive_timeout_secs
        }
    }

    /// The buffer, for what is read to be put behind what is in it.
    pub fn buffer(&mut self) -> (r: &mut BytesMut)
        ensures
            buffer::buffered(*r) == old(self)@.pending,
            final(self)@ == (ConnectionView {
                pending: buffer::buffered(*final(r)),
                first_request: old(self)@.first_request,
            }),
    {
        &mut self.buf
    }

    /// Looks for a request in what has come so far.
    pub fn read_request(&self, last: Option<ReadOutcome>, http: &HttpConfig) -> (r: RequestStep)
        ensures
            r@ == request::step_after(
                self@.pending,
                last,
                http.max_request_headers_bytes as nat,
                http.max_request_body_bytes as nat,
            ),
            r matches RequestStep::Request(q) ==> q.body_start <= self@.pending.len(),
    {
        read_http_request(
            &self.buf,
            last,
            http.max_request_headers_bytes,
            http.max_request_body_bytes,
        )
    }

    /// Drops the head of a request; its body and what follows stay.
    pub fn drop_head(&mut self, body_start: usize)
        requires
            body_start <= old(self)@.pending.len(),
        ensures
            final(self)@ == (ConnectionView {
                pending: old(self)@.pending.skip(body_start as int),
                first_request: old(self)@.first_request,
            }),
    {
        if body_start > 0 {
            buffer_advance(&mut self.buf, body_start);
        }
        assert(self@.pending =~= old(self)@.pending.skip(body_start as int));
    }

    /// Ends a request. The result says whether the connection stays open for
    /// another one.
    pub fn finish_request(&mut self, force_close: bool, close_after: bool) -> (r: bool)
        ensures
            r == !(force_close || close_after),
            final(self)@ == (ConnectionView {
                pending: old(self)@.pending,
                first_request: old(self)@.first_request && !r,
            }),
    {
        if force_close || close_after {
            return false;
        }
        self.first_request = false;
        true
    }
}

/// Whether bytes are the head of a request that is not refused, without the
/// empty line that ends it, whatever comes behind.
pub open spec fn accepted_head(head: Seq<u8>, behind: Seq<u8>, m: request::MetadataView) -> bool {
    &&& text::first_occurrence(head + buffer::head_end() + behind, buffer::head_end()) == Some(
        head.len() as int,
    )
    &&& request::metadata_of(encoding::lossy_text(head)) == Ok::<
        request::MetadataView,
        request::HeaderParseError,
    >(m)
}

/// Requests on one connection do not run into each other: behind the head of a
/// request and as many bytes as its length says stands the next one.
pub proof fn next_request_follows_the_body(
    head: Seq<u8>,
    m: request::MetadataView,
    body: Seq<u8>,
    next: Seq<u8>,
    max_headers: nat,
    max_body: nat,
)
    requires
        accepted_head(head, body + next, m),
        !m.is_chunked,
        m.content_length == body.len(),
        max_body == 0 || body.len() <= max_body,
    ensures
        ({
            let buf = head + buffer::head_end() + (body + next);
            request::step_of(buf, max_headers, max_body) matches request::StepView::Request(q)
                && buf.skip(q.body_start as int).take(q.content_length as int) == body && buf.skip(
                q.body_start as int,
            ).skip(q.content_length as int) == next
        }),
{
    let buf = head + buffer::head_end() + (body + next);
    assert(buf.take(head.len() as int) =~= head);
    let rest = buf.skip((head.len() + 4) as int);
    assert(rest =~= body + next);
    assert(rest.take(body.len() as int) =~= body);
    assert(rest.skip(body.len() as int) =~= next);
}

/// The same of a request whose body comes in chunks: dropping the body leaves
/// the next request.
pub proof fn next_request_follows_the_chunks(
    head: Seq<u8>,
    m: request::MetadataView,
    cs: Seq<chunked::Chunk>,
    last: Seq<u8>,
    trailers: Seq<Seq<u8>>,
    next: Seq<u8>,
    max_headers: nat,
    max_body: usize,
)
    requires
        accepted_head(head, chunked::body_bytes(cs, last, trailers) + next, m),
        m.is_chunked,
        chunked::last_line_ok(true, last),
        forall|i: int| 0 <= i < cs.len() ==> chunked::chunk_ok(true, #[trigger] cs[i]),
        forall|i: int| 0 <= i < trailers.len() ==> chunked::trailer_ok(#[trigger] trailers[i]),
        max_body == 0 || chunked::chunks_data(cs).len() <= max_body,
    ensures
        ({
            let buf = head + buffer::head_end() + (chunked::body_bytes(cs, last, trailers) + next);
            let scanner = chunked::ChunkScanner {
                phase: chunked::ChunkPhase::Size,
                body_bytes: 0,
                max_body,
                strict: true,
            };
            request::step_of(buf, max_headers, max_body as nat) matches request::StepView::Request(
                q,
            ) && q.is_chunked && ({
                let rest = buf.skip(q.body_start as int);
                let r = chunked::scan_run(scanner, rest);
                r.2 == chunked::ScanVerdict::Done && rest.skip(r.1) == next
            })
        }),
{
    let body = chunked::body_bytes(cs, last, trailers);
    let buf = head + buffer::head_end() + (body + next);
    let scanner = chunked::ChunkScanner {
        phase: chunked::ChunkPhase::Size,
        body_bytes: 0,
        max_body,
        strict: true,
    };
    assert(buf.take(head.len() as int) =~= head);
    assert(buf.skip((head.len() + 4) as int) =~= body + next);
    chunked::whole_body_is_scanned(scanner, cs, last, trailers, next);
    assert((body + next).skip(body.len() as int) =~= next);
}

// ---------------------------------------------------------------------------
// Hosts, redirects and counters
// ---------------------------------------------------------------------------

proof fn lemma_last_pos(s: Seq<char>, c: char, i: int)
    requires
        -1 <= i < s.len(),
        i >= 0 ==> s[i] == c,
        forall|j: int| i < j < s.len() ==> s[j] != c,
    ensures
        last_pos(s, c) == (if i >= 0 {
            Some(i)
        } else {
            None
        }),
    decreases s.len(),
{
    if s.len() > 0 && s.last() != c {
        lemma_last_pos(s.drop_last(), c, i);
    }
}

/// Whether a text is a host name: not empty, without a colon, a bracket at its
/// beginning or white space at its ends.
pub open spec fn host_name(h: Seq<char>) -> bool {
    &&& h.len() > 0
    &&& !h.contains(':')
    &&& h[0] != '['
    &&& !text::is_white(h[0])
    &&& !text::is_white(h.last())
}

/// A port is told from a host: a name stays whole, a port of digits behind a
/// colon is taken off, and an address in brackets keeps its brackets. White space
/// around them does not count.
pub proof fn port_is_told_from_host(name: Seq<char>, port: Seq<char>, inner: Seq<char>)
    requires
        host_name(name),
        port.len() > 0,
        forall|i: int| 0 <= i < port.len() ==> '0' <= #[trigger] port[i] <= '9',
        !inner.contains(']'),
    ensures
        host_parts(name) == (name, None::<Seq<char>>),
        host_parts(name + seq![':'] + port) == (name, Some(port)),
        host_parts(seq!['['] + inner + seq![']']) == (
            seq!['['] + inner + seq![']'],
            None::<Seq<char>>,
        ),
        host_parts(seq!['['] + inner + seq![']', ':'] + port) == (
            seq!['['] + inner + seq![']'],
            Some(port),
        ),
        host_parts(seq![' '] + name + seq![' ']) == (name, None::<Seq<char>>),
{
    assert(text::trimmed(name) == name);
    assert forall|j: int| -1 < j < name.len() implies name[j] != ':' by {
        assert(name.contains(name[j]));
    }
    lemma_last_pos(name, ':', -1);

    let with = name + seq![':'] + port;
    let n = name.len() as int;
    assert(with[0] == name[0]);
    assert(with.last() == port.last());
    assert('0' <= port[port.len() - 1] <= '9');
    assert(text::trimmed(with) == with);
    assert forall|j: int| n < j < with.len() implies with[j] != ':' by {
        assert(with[j] == port[j - n - 1]);
    }
    assert(with[n] == ':');
    lemma_last_pos(with, ':', n);
    assert(with.take(n) =~= name);
    assert(with.skip(n + 1) =~= port);

    let b = seq!['['] + inner + seq![']'];
    let m = inner.len() as int;
    assert(b.last() == ']');
    assert(text::trimmed(b) == b);
    assert forall|j: int| 0 <= j < m + 1 implies b[j] != ']' by {
        if j > 0 {
            assert(b[j] == inner[j - 1]);
            assert(inner.contains(inner[j - 1]));
        }
    }
    text::lemma_first_pos(b, ']', m + 1);
    assert(b.take(m + 2) =~= b);
    assert(b.skip(m + 2) =~= seq![]);

    let bp = seq!['['] + inner + seq![']', ':'] + port;
    assert(bp[0] == '[');
    assert(bp.last() == port.last());
    assert(text::trimmed(bp) == bp);
    assert forall|j: int| 0 <= j < m + 1 implies bp[j] != ']' by {
        assert(bp[j] == b[j]);
    }
    assert(bp[m + 1] == ']');
    text::lemma_first_pos(bp, ']', m + 1);
    assert(bp.take(m + 2) =~= b);
    let rest = bp.skip(m + 2);
    assert(rest[0] == ':');
    assert(rest.skip(1) =~= port);

    let s = seq![' '] + name + seq![' '];
    assert(s[0] == ' ');
    let t = name + seq![' '];
    assert(s.drop_first() =~= t);
    assert(t[0] == name[0]);
    assert(text::trim_start(t, Class::White) == t);
    assert(text::trim_start(s, Class::White) == t);
    assert(t.drop_last() =~= name);
    assert(text::trim_end(name, Class::White) == name);
    assert(text::trimmed(s) == name);
}

/// A redirect leads to the same host and path under https, at the port at which
/// TLS listens; the port is left out where it is 443 or not known. A port that the
/// client named does not count.
pub proof fn redirect_leads_to_https(
    name: Seq<char>,
    port: Seq<char>,
    path: Seq<char>,
    tls_port: u16,
)
    requires
        host_name(name),
        port.len() > 0,
        forall|i: int| 0 <= i < port.len() ==> '0' <= #[trigger] port[i] <= '9',
    ensures
        https_location(name, path, None) == "https://"@ + name + path,
        https_location(name, path, Some(443u16)) == "https://"@ + name + path,
        tls_port != 443 ==> https_location(name, path, Some(tls_port)) == "https://"@ + name + ":"@
            + number::decimal(tls_port as nat) + path,
        https_location(name + seq![':'] + port, path, Some(tls_port)) == https_location(
            name,
            path,
            Some(tls_port),
        ),
{
    port_is_told_from_host(name, port, seq![]);
}

/// A request without TLS is redirected where the server's TLS settings say so, to
/// the host that it names or else to the server's name, with its whole path. Any
/// other request goes to the location that routing gives, or finds nothing where
/// the server has none.
pub proof fn plain_requests_are_redirected(
    rq: RequestView,
    server: RuntimeView,
    w: Surrounding,
    host: Seq<char>,
)
    requires
        rq.headers.len() > 0,
        !asks_for_metrics(rq.path),
        host == (match request::first_host(crate::headers::header_fields(rq.headers)) {
            Some(h) => h,
            None => server.config.server_name,
        }),
    ensures
        !w.is_tls && (server.config.tls matches Some(t) && t.redirect_http) ==> planned(rq, server, w)
            == PlanView::Respond(
            encode_utf8(
                "HTTP/1.1 301 Moved Permanently\r\nServer: migux/0.1.0\r\nLocation: "@ + https_location(
                    host,
                    rq.path,
                    w.tls_port,
                ) + "\r\nContent-Length: 0\r\nConnection: close\r\n\r\n"@,
            ),
        ),
        w.is_tls || server.config.tls is None || !server.config.tls->0.redirect_http ==> (if server.locations.len()
            == 0 {
            planned(rq, server, w) == PlanView::Respond(
                responses::refusal_response(Refusal::NotFound),
            )
        } else {
            planned(rq, server, w) == PlanView::Dispatch(
                routing::routed(server.locations, rq.path),
            )
        }),
{
}

/// So many slashes.
pub open spec fn slashes(count: nat) -> Seq<char> {
    Seq::new(count, |i: int| '/')
}

/// The path of the counters is `/_migux/cache`, with or without slashes behind it
/// and a query; no other path is.
pub proof fn counters_have_one_path(count: nat, query: Seq<char>, other: Seq<char>)
    ensures
        ({
            let path = "/_migux/cache"@ + slashes(count);
            &&& asks_for_metrics(path)
            &&& asks_for_metrics(path + seq!['?'] + query)
        }),
        asks_for_metrics(other) ==> exists|k: nat, rest: Seq<char>|
            other == #[trigger] ("/_migux/cache"@ + slashes(k) + rest) && (rest.len()
                == 0 || rest[0] == '?'),
{
    reveal_strlit("/_migux/cache");
    let base = "/_migux/cache"@;
    let path = base + slashes(count);
    lemma_slashes(base, count);
    assert forall|j: int| 0 <= j < path.len() implies path[j] != '?' by {}
    text::lemma_first_pos(path, '?', path.len() as int);
    assert(path.take(path.len() as int) =~= path);
    let with = path + seq!['?'] + query;
    assert forall|j: int| 0 <= j < path.len() implies with[j] != '?' by {
        assert(with[j] == path[j]);
    }
    assert(with[path.len() as int] == '?');
    text::lemma_first_pos(with, '?', path.len() as int);
    assert(with.take(path.len() as int) =~= path);
    if asks_for_metrics(other) {
        text::lemma_first_pos_range(other, '?');
        let n = text::first_pos(other, '?');
        let p = other.take(n);
        let k = lemma_cut_slashes(p);
        let rest = other.skip(n);
        assert(p =~= base + slashes(k));
        assert(other =~= base + slashes(k) + rest);
    }
}

proof fn lemma_slashes(base: Seq<char>, k: nat)
    requires
        base.len() > 0,
        base.last() != '/',
    ensures
        text::trim_end(base + slashes(k), Class::One('/')) == base,
    decreases k,
{
    let s = base + slashes(k);
    if k == 0 {
        assert(s =~= base);
    } else {
        lemma_slashes(base, (k - 1) as nat);
        assert(s.drop_last() =~= base + slashes((k - 1) as nat));
        assert(s.last() == '/');
    }
}

proof fn lemma_cut_slashes(s: Seq<char>) -> (k: nat)
    ensures
        s == text::trim_end(s, Class::One('/')) + slashes(k),
    decreases s.len(),
{
    if s.len() > 0 && s.last() == '/' {
        let k = lemma_cut_slashes(s.drop_last());
        assert(s =~= s.drop_last().push('/'));
        assert(s =~= text::trim_end(s, Class::One('/')) + slashes((k + 1) as nat));
        (k + 1) as nat
    } else {
        assert(s =~= s + slashes(0));
        0
    }
}

/// The counters are told to local clients that read; `HEAD` gets none of them.
/// Others find nothing there, and other methods are told which are allowed.
pub proof fn counters_are_told(rq: RequestView, server: RuntimeView, w: Surrounding)
    requires
        rq.headers.len() > 0,
        asks_for_metrics(rq.path),
    ensures
        !w.loopback ==> planned(rq, server, w) == PlanView::Respond(
            responses::refusal_response(Refusal::NotFound),
        ),
        w.loopback && rq.method == "GET"@ ==> planned(rq, server, w) == PlanView::Respond(
            responses::response(
                "200 OK"@,
                "application/json; charset=utf-8"@,
                encode_utf8(
                    "{\"memory_hits\":"@ + number::decimal(w.metrics.memory_hits as nat)
                        + ",\"memory_misses\":"@ + number::decimal(w.metrics.memory_misses as nat)
                        + ",\"disk_hits\":"@ + number::decimal(w.metrics.disk_hits as nat)
                        + ",\"disk_misses\":"@ + number::decimal(w.metrics.disk_misses as nat) + "}"@,
                ),
            ),
        ),
        w.loopback && rq.method == "HEAD"@ ==> planned(rq, server, w) == PlanView::Respond(
            responses::response("200 OK"@, "application/json; charset=utf-8"@, seq![]),
        ),
        w.loopback && rq.method != "HEAD"@ && rq.method != "GET"@ ==> planned(rq, server, w)
            == PlanView::Respond(encode_utf8(responses::not_allowed_head("GET, HEAD"@))),
{
    reveal_strlit("HEAD");
    reveal_strlit("GET");
    assert("HEAD"@.len() != "GET"@.len());
}

/// The first request of a connection may take as long as a read may, any later
/// one as long as an idle connection is kept.
pub proof fn idle_connections_are_kept(http: HttpConfig)
    ensures
        idle_limit(true, http) == http.client_read_timeout_secs,
        idle_limit(false, http) == http.keepalive_timeout_secs,
{
}

/// What stands behind the last colon of a host is a port only if it is made of
/// digits and there is at least one; otherwise it belongs to the host.
pub proof fn other_hosts_have_no_port(name: Seq<char>, rest: Seq<char>, i: int)
    requires
        host_name(name),
        !rest.contains(':'),
        rest.len() > 0 ==> !text::is_white(rest.last()),
        rest.len() > 0 ==> 0 <= i < rest.len() && !('0' <= rest[i] <= '9'),
    ensures
        host_parts(name + seq![':'] + rest) == (name + seq![':'] + rest, None::<Seq<char>>),
{
    let with = name + seq![':'] + rest;
    let n = name.len() as int;
    assert(with[0] == name[0]);
    if rest.len() > 0 {
        assert(with.last() == rest.last());
    } else {
        assert(with.last() == ':');
    }
    assert(text::trimmed(with) == with);
    assert forall|j: int| n < j < with.len() implies with[j] != ':' by {
        assert(with[j] == rest[j - n - 1]);
        assert(rest.contains(rest[j - n - 1]));
    }
    assert(with[n] == ':');
    lemma_last_pos(with, ':', n);
    assert(with.skip(n + 1) =~= rest);
}

} // verus!
