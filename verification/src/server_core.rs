//! A plainer server: one request per connection, read whole, served from a file
//! or passed on to an upstream.
use crate::buffer::{self, copy_bytes, find_headers_end, push_bytes};
use crate::encoding::{self, bytes_of, lossy};
use crate::headers::{self, find_last_number, first_line, head_lines, word_string};
use crate::migux_config::location::LocationType;
use crate::migux_config::migux::{self, MiguxConfig};
use crate::migux_config::server::ServerConfig;
use crate::migux_core::listen;
use crate::migux_core::request;
use crate::migux_core::routing::{self, match_location_index, select_default_server};
use crate::migux_core::structs::RuntimeView;
use crate::migux_proxy::response;
use crate::migux_static::service::FileContents;
use crate::named;
use crate::number::{self, push_decimal};
use crate::shared_map;
use crate::text::{self, chars_of, concat3, is_empty, same_str, split_words};
use crate::written;
use vstd::prelude::*;
use vstd::slice::slice_subrange;
use vstd::utf8::*;

pub use crate::migux_core::listen::build_servers_by_listen;
pub use crate::migux_core::structs::{CacheStore, ServerRuntime};
pub use crate::migux_core::types::{ListenAddr, ServersByListen};

verus! {

/// The sum of two numbers.
pub fn add(left: u64, right: u64) -> (r: u64)
    requires
        left + right <= u64::MAX,
    ensures
        r == left + right,
{
    left + right
}

/// A configuration with a store of responses.
pub struct MiguxApp {
    pub config: MiguxConfig,
    pub cache: CacheStore,
}

impl MiguxApp {
    /// The default configuration with an empty store.
    pub fn init() -> (r: Self)
        ensures
            r.config.deep_view() == migux::default_config(),
            shared_map::bodies_of(r.cache.responses).dom() == Set::<Seq<char>>::empty(),
    {
        MiguxApp { config: MiguxConfig::default(), cache: CacheStore::new() }
    }
}

/// The configuration with the listeners that follow from it, and a store of
/// responses.
pub struct Master {
    pub cfg: MiguxConfig,
    pub servers_by_listen: ServersByListen,
    pub cache: CacheStore,
}

impl Master {
    /// The master of a configuration.
    pub fn new(cfg: MiguxConfig) -> (r: Self)
        ensures
            r.cfg == cfg,
            named::names_distinct(r.servers_by_listen.deep_view()),
            forall|k: Seq<char>|
                #[trigger] named::find(r.servers_by_listen.deep_view(), k) == listen::group_at(
                    cfg.servers.deep_view(),
                    cfg.location.deep_view(),
                    k,
                ),
            shared_map::bodies_of(r.cache.responses).dom() == Set::<Seq<char>>::empty(),
    {
        let servers_by_listen = build_servers_by_listen(&cfg);
        Master { cfg, servers_by_listen, cache: CacheStore::new() }
    }
}

// ---------------------------------------------------------------------------
// Responses
// ---------------------------------------------------------------------------

/// The head of a response.
pub open spec fn response_head(status: Seq<char>, content_type: Seq<char>, len: nat) -> Seq<char> {
    "HTTP/1.1 "@ + status + "\r\nContent-Type: "@ + content_type + "\r\nContent-Length: "@
        + number::decimal(len) + "\r\nConnection: close\r\n\r\n"@
}

/// The bytes of a response.
pub open spec fn response(status: Seq<char>, content_type: Seq<char>, body: Seq<u8>) -> Seq<u8> {
    encode_utf8(response_head(status, content_type, body.len())) + body
}

/// Builds a response.
pub fn build_response(status: &str, content_type: &str, body: &[u8]) -> (r: Vec<u8>)
    ensures
        r@ == response(status@, content_type@, body@),
{
    let mut head = String::new();
    head.append("HTTP/1.1 ");
    head.append(status);
    head.append("\r\nContent-Type: ");
    head.append(content_type);
    head.append("\r\nContent-Length: ");
    push_decimal(&mut head, body.len() as u128);
    head.append("\r\nConnection: close\r\n\r\n");
    assert(head@ =~= response_head(status@, content_type@, body@.len()));
    let mut out = bytes_of(head.as_str());
    push_bytes(&mut out, body);
    out
}

/// The bytes of a plain-text response.
pub open spec fn text_response(status: Seq<char>, body: Seq<char>) -> Seq<u8> {
    response(status, "text/plain; charset=utf-8"@, encode_utf8(body))
}

/// Builds a plain-text response.
pub fn build_text_response(status: &str, body: &str) -> (r: Vec<u8>)
    ensures
        r@ == text_response(status@, body@),
{
    build_response(status, "text/plain; charset=utf-8", body.as_bytes())
}

/// Builds the response for what is not there.
pub fn build_404() -> (r: Vec<u8>)
    ensures
        r@ == text_response("404 Not Found"@, "404 Not Found\n"@),
{
    build_text_response("404 Not Found", "404 Not Found\n")
}

/// Builds the response for what is not done.
pub fn build_501() -> (r: Vec<u8>)
    ensures
        r@ == text_response("501 Not Implemented"@, "501 Not Implemented (proxy TODO)\n"@),
{
    build_text_response("501 Not Implemented", "501 Not Implemented (proxy TODO)\n")
}

/// Builds the response for what went wrong.
pub fn build_500() -> (r: Vec<u8>)
    ensures
        r@ == text_response("500 Internal Server Error"@, "Internal Server Error\n"@),
{
    build_text_response("500 Internal Server Error", "Internal Server Error\n")
}

/// Builds the greeting.
pub fn build_hello() -> (r: Vec<u8>)
    ensures
        r@ == text_response("200 OK"@, "Hello from Migux!\n"@),
{
    build_text_response("200 OK", "Hello from Migux!\n")
}

/// The index file of a server.
pub fn index_path(config: &ServerConfig) -> (r: String)
    ensures
        r@ == config.root@ + "/"@ + config.index@,
{
    concat3(config.root.as_str(), "/", config.index.as_str())
}

/// Answers with the index file of a server, given what came of reading it.
pub fn serve_index(contents: &FileContents) -> (r: Vec<u8>)
    ensures
        r@ == (match contents {
            FileContents::Bytes(b) => response("200 OK"@, "text/html; charset=utf-8"@, b@),
            FileContents::Missing => text_response("404 Not Found"@, "404 Not Found\n"@),
            FileContents::Failed => text_response(
                "500 Internal Server Error"@,
                "Internal Server Error\n"@,
            ),
        }),
{
    match contents {
        FileContents::Bytes(b) => build_response("200 OK", "text/html; charset=utf-8", b.as_slice()),
        FileContents::Missing => build_404(),
        FileContents::Failed => build_500(),
    }
}

// ---------------------------------------------------------------------------
// Requests
// ---------------------------------------------------------------------------

/// Reads the method and the path in the first line of a request.
pub fn parse_request_line(req: &str) -> (r: (String, String))
    ensures
        r.0@ == headers::word_or(headers::start_line(req@), 0, "-"@),
        r.1@ == headers::word_or(headers::start_line(req@), 1, "/"@),
{
    let rc = chars_of(req);
    let ls = head_lines(rc.as_slice());
    let line = first_line(&ls, rc.as_slice());
    let words = split_words(line);
    (word_string(&words, 0, "-"), word_string(&words, 1, "/"))
}

/// The length of the body that a head announces.
pub open spec fn announced(head: Seq<char>) -> nat {
    match headers::last_number(text::lines(head), "content-length:"@) {
        Some(n) => n,
        None => 0,
    }
}

/// The request in what has come so far, its head and its body, once it is
/// complete. Where no more comes, what is there is taken for it: a head
/// without end is a request without a body.
pub open spec fn request_in(buf: Seq<u8>, eof: bool) -> Option<(Seq<char>, Seq<u8>)> {
    match text::first_occurrence(buf, buffer::head_end()) {
        Some(i) => {
            let head = encoding::lossy_text(buf.take(i));
            let body = buf.skip(i + 4);
            if body.len() >= announced(head) || eof {
                Some((head, body))
            } else {
                None
            }
        },
        None => if eof {
            Some((encoding::lossy_text(buf), seq![]))
        } else {
            None
        },
    }
}

/// Reads a request. Nothing means that more has to be read first.
pub fn read_http_request(buf: &[u8], eof: bool) -> (r: Option<(String, Vec<u8>)>)
    ensures
        match r {
            Some(q) => request_in(buf@, eof) == Some((q.0@, q.1@)),
            None => request_in(buf@, eof) is None,
        },
{
    let n: usize = buf.len();
    match find_headers_end(buf) {
        Some(end) => {
            let head = lossy(slice_subrange(buf, 0, end));
            assert(buf@.subrange(0, end as int) =~= buf@.take(end as int));
            let hc = chars_of(head.as_str());
            let ls = head_lines(hc.as_slice());
            assert(text::views(ls@).skip(0) =~= text::lines(head@));
            let expected: usize = match find_last_number(&ls, 0, "content-length:") {
                Some(n) => n,
                None => 0,
            };
            let body = slice_subrange(buf, end + 4, n);
            assert(body@ =~= buf@.skip(end + 4));
            if body.len() >= expected || eof {
                Some((head, copy_bytes(body)))
            } else {
                None
            }
        },
        None => {
            if eof {
                let body: Vec<u8> = Vec::new();
                assert(body@ =~= seq![]);
                Some((lossy(buf), body))
            } else {
                None
            }
        },
    }
}

/// What is done with a request.
#[derive(Clone, Copy, Debug, PartialEq, Eq, Structural)]
pub enum RequestPlan {
    /// Nothing came.
    Close,
    /// The request is answered as if nothing were there.
    NotFound,
    /// The location at the given place serves a file.
    Static(usize),
    /// The request goes to the upstream of the location at the given place.
    Proxy(usize),
}

/// What is done with a request to a server.
pub open spec fn planned(head: Seq<char>, server: RuntimeView) -> RequestPlan {
    let method = headers::word_or(headers::start_line(head), 0, "-"@);
    let i = routing::routed(
        server.locations,
        headers::word_or(headers::start_line(head), 1, "/"@),
    );
    if head.len() == 0 {
        RequestPlan::Close
    } else if server.locations.len() == 0 {
        RequestPlan::NotFound
    } else {
        match server.locations[i].kind {
            LocationType::Static => if method == "GET"@ || method == "HEAD"@ {
                RequestPlan::Static(i as usize)
            } else {
                RequestPlan::NotFound
            },
            LocationType::Proxy => RequestPlan::Proxy(i as usize),
        }
    }
}

/// Decides what is done with a request on a listener with the given servers.
pub fn handle_request(servers: &[ServerRuntime], head: &str) -> (r: RequestPlan)
    requires
        servers@.len() > 0,
    ensures
        r == planned(head@, servers@[0].deep_view()),
        match r {
            RequestPlan::Static(i) => i < servers@[0].locations@.len(),
            RequestPlan::Proxy(i) => i < servers@[0].locations@.len(),
            _ => true,
        },
{
    if is_empty(head) {
        return RequestPlan::Close;
    }
    let (method, path) = parse_request_line(head);
    let server = select_default_server(servers);
    if server.locations.len() == 0 {
        return RequestPlan::NotFound;
    }
    let i = match_location_index(server.locations.as_slice(), path.as_str());
    assert(server.deep_view().locations[i as int] == server.locations@[i as int].deep_view());
    match server.locations[i].kind {
        LocationType::Static => {
            if !same_str(method.as_str(), "GET") && !same_str(method.as_str(), "HEAD") {
                return RequestPlan::NotFound;
            }
            RequestPlan::Static(i)
        },
        LocationType::Proxy => RequestPlan::Proxy(i),
    }
}

/// More input never changes the head of a request that has one.
pub proof fn head_is_settled(buf: Seq<u8>, more: Seq<u8>, i: int)
    requires
        text::first_occurrence(buf, buffer::head_end()) == Some(i),
    ensures
        request_in(buf, true) matches Some(q) && request_in(buf + more, true) matches Some(p)
            && p.0 == q.0 && p.1 == q.1 + more,
{
    text::lemma_first_occurrence(buf, buffer::head_end());
    let all = buf + more;
    assert(i + 4 <= buf.len());
    assert forall|k: int| 0 <= k < i implies !text::occurs_at(
        all,
        buffer::head_end(),
        k,
    ) by {
        if text::occurs_at(all, buffer::head_end(), k) {
            assert(all.subrange(k, k + 4) =~= buf.subrange(k, k + 4));
            assert(text::occurs_at(buf, buffer::head_end(), k));
        }
    }
    assert(all.subrange(i, i + 4) =~= buf.subrange(i, i + 4));
    text::lemma_is_first_occurrence(all, buffer::head_end(), i);
    assert(all.take(i) =~= buf.take(i));
    assert(all.skip(i + 4) =~= buf.skip(i + 4) + more);
}

// ---------------------------------------------------------------------------
// Requests and responses as they are written
// ---------------------------------------------------------------------------

/// A request is complete with as many bytes of body as its head announces, or with
/// the end of the connection; before that more is read.
pub proof fn request_is_awaited(head: Seq<u8>, body: Seq<u8>, t: Seq<char>)
    requires
        text::first_occurrence(
            head + seq![13u8, 10u8, 13u8, 10u8] + body,
            seq![13u8, 10u8, 13u8, 10u8],
        ) == Some(head.len() as int),
        encoding::lossy_text(head) == t,
    ensures
        ({
            let buf = head + seq![13u8, 10u8, 13u8, 10u8] + body;
            &&& request_in(buf, true) == Some((t, body))
            &&& body.len() >= announced(t) ==> request_in(buf, false) == Some((t, body))
            &&& body.len() < announced(t) ==> request_in(buf, false) is None
        }),
{
    let buf = head + seq![13u8, 10u8, 13u8, 10u8] + body;
    assert(buf.take(head.len() as int) =~= head);
    assert(buf.skip(head.len() as int + 4) =~= body);
}

/// The announced length is that of the last `Content-Length`, whatever the case of
/// its name; without one it is zero.
pub proof fn length_is_announced(
    line: Seq<char>,
    fs: Seq<(Seq<char>, Seq<char>)>,
    head: Seq<char>,
    n: nat,
)
    requires
        !line.contains('\n'),
        headers::line_value(line, "content-length:"@) is None,
        written::all_clean(fs),
        head == written::head_text(line, fs),
        n <= usize::MAX,
    ensures
        response::length_given(fs, n) ==> announced(head) == n,
        response::no_length_given(fs) ==> announced(head) == 0,
{
    written::written_head_reads_back(line, fs);
    written::lemma_written_lines(line, fs);
    response::lemma_last_number(fs, n);
    lemma_line_in_front(line, written::bare_lines(fs));
}

proof fn lemma_line_in_front(line: Seq<char>, ls: Seq<Seq<char>>)
    requires
        headers::line_value(line, "content-length:"@) is None,
    ensures
        headers::last_number(seq![line] + ls, "content-length:"@) == headers::last_number(
            ls,
            "content-length:"@,
        ),
    decreases ls.len(),
{
    let all = seq![line] + ls;
    if ls.len() == 0 {
        assert(all.drop_last() =~= seq![]);
        assert(headers::last_number(all.drop_last(), "content-length:"@) is None);
    } else {
        assert(all.drop_last() =~= seq![line] + ls.drop_last());
        assert(all.last() == ls.last());
        lemma_line_in_front(line, ls.drop_last());
    }
}

/// A request goes to the location that routing gives for its path: a static one
/// serves `GET` and `HEAD` alone, a proxy takes every method.
pub proof fn request_goes_to_its_location(
    method: Seq<char>,
    path: Seq<char>,
    version: Seq<char>,
    head: Seq<char>,
    server: RuntimeView,
)
    requires
        request::is_word(method),
        request::is_word(path),
        request::is_word(version),
        headers::start_line(head) == method + " "@ + path + " "@ + version,
    ensures
        ({
            let i = routing::routed(server.locations, path);
            let p = planned(head, server);
            if server.locations.len() == 0 {
                p == RequestPlan::NotFound
            } else if server.locations[i].kind == LocationType::Proxy {
                p == RequestPlan::Proxy(i as usize)
            } else if method == "GET"@ || method == "HEAD"@ {
                p == RequestPlan::Static(i as usize)
            } else {
                p == RequestPlan::NotFound
            }
        }),
{
    request::request_line_is_read(method, path, version);
    assert(head.len() > 0) by {
        if head.len() == 0 {
            assert(text::lines(head) =~= seq![]);
            reveal_strlit(" ");
        }
    }
}

/// A response is a status line, three header lines, an empty line and the body; it
/// tells the length of the body and that the connection closes.
pub proof fn response_is_well_formed(status: Seq<char>, content_type: Seq<char>, body: Seq<u8>)
    ensures
        response(status, content_type, body) == encode_utf8(
            written::head_text(
                "HTTP/1.1 "@ + status,
                seq![
                    ("Content-Type"@, content_type),
                    ("Content-Length"@, number::decimal(body.len())),
                    ("Connection"@, "close"@),
                ],
            ) + "\r\n"@,
        ) + body,
{
    let fs = seq![
        ("Content-Type"@, content_type),
        ("Content-Length"@, number::decimal(body.len())),
        ("Connection"@, "close"@),
    ];
    assert(fs.drop_last() =~= seq![fs[0], fs[1]]);
    assert(seq![fs[0], fs[1]].drop_last() =~= seq![fs[0]]);
    assert(seq![fs[0]].drop_last() =~= seq![]);
    assert(written::field_lines(seq![]) =~= seq![]);
    assert(written::field_lines(seq![fs[0]]) =~= written::field_line(fs[0]));
    assert(written::field_lines(seq![fs[0], fs[1]]) =~= written::field_line(fs[0])
        + written::field_line(fs[1]));
    reveal_strlit("\r\nContent-Type: ");
    reveal_strlit("\r\nContent-Length: ");
    reveal_strlit("\r\nConnection: close\r\n\r\n");
    reveal_strlit("\r\n");
    reveal_strlit(": ");
    reveal_strlit("Content-Type");
    reveal_strlit("Content-Length");
    reveal_strlit("Connection");
    reveal_strlit("close");
    assert("\r\nContent-Type: "@ =~= "\r\n"@ + "Content-Type"@ + ": "@);
    assert("\r\nContent-Length: "@ =~= "\r\n"@ + "Content-Length"@ + ": "@);
    assert("\r\nConnection: close\r\n\r\n"@ =~= "\r\n"@ + "Connection"@ + ": "@ + "close"@ + "\r\n"@
        + "\r\n"@);
    assert(response_head(status, content_type, body.len()) =~= written::head_text(
        "HTTP/1.1 "@ + status,
        fs,
    ) + "\r\n"@);
}

/// A text is answered as plain text in UTF-8, with its length in bytes.
pub proof fn texts_are_answered_as_such(status: Seq<char>, body: Seq<char>)
    ensures
        text_response(status, body) == encode_utf8(
            "HTTP/1.1 "@ + status + "\r\nContent-Type: "@ + "text/plain; charset=utf-8"@
                + "\r\nContent-Length: "@ + number::decimal(encode_utf8(body).len())
                + "\r\nConnection: close\r\n\r\n"@,
        ) + encode_utf8(body),
{
}

} // verus!
