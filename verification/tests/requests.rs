use bytes::BytesMut;
use migux::chunked::{discard_chunked_body, discard_content_length, ChunkFault, ChunkScanner, ScanVerdict};
use migux::migux_config::{HttpConfig, LocationConfig, LocationType, ServerConfig, TlsConfig};
use migux::migux_core::connection::{
    build_https_redirect, is_cache_metrics_path, maybe_handle_cache_metrics, plan_request,
    split_host_port, Connection, RequestPlan, Surrounding,
};
use migux::migux_core::dispatch::{body_fault, body_read_error, body_refusal, dispatch_location, ChunkedBodyError, Discard, Dispatch};
use migux::migux_core::request::{
    extract_host_header, parse_request_metadata, read_http_request, HeaderParseError,
    ParsedRequest, ReadOutcome, RequestStep,
};
use migux::migux_core::routing::match_location;
use migux::migux_core::{buffered, ServerRuntime};
use migux::migux_http::responses::{build_405_with_allow, build_refusal, Refusal};
use migux::migux_static::cache::CacheMetrics;
use migux::server_core;

#[test]
fn parse_request_metadata_accepts_duplicate_content_length() {
    let headers = "POST /upload HTTP/1.1\r\nHost: example\r\nContent-Length: 5\r\nContent-Length: 5\r\n\r\n";
    let meta = parse_request_metadata(headers).expect("expected ok");
    assert_eq!(meta.content_length, 5);
}

#[test]
fn parse_request_metadata_rejects_conflicting_content_length() {
    let headers = "POST /upload HTTP/1.1\r\nHost: example\r\nContent-Length: 5\r\nContent-Length: 6\r\n\r\n";
    let err = parse_request_metadata(headers).unwrap_err();
    assert!(matches!(err, HeaderParseError::ConflictingContentLength));
}

#[test]
fn parse_request_metadata_rejects_invalid_content_length() {
    let headers = "POST /upload HTTP/1.1\r\nHost: example\r\nContent-Length: nope\r\n\r\n";
    let err = parse_request_metadata(headers).unwrap_err();
    assert!(matches!(err, HeaderParseError::InvalidContentLength));
}

#[test]
fn parse_request_metadata_connection_tokens() {
    let headers = "GET / HTTP/1.1\r\nConnection: \"keep-alive\", close\r\n\r\n";
    let meta = parse_request_metadata(headers).expect("expected ok");
    assert!(meta.close_after);
}

#[test]
fn parse_request_metadata_detects_chunked_with_tokens() {
    let headers = "POST / HTTP/1.1\r\nTransfer-Encoding: gzip, \"chunked\"\r\nContent-Length: 10\r\n\r\n";
    let meta = parse_request_metadata(headers).expect("expected ok");
    assert!(meta.is_chunked);
    assert_eq!(meta.content_length, 10);
}

#[test]
fn old_clients_close_unless_they_ask_to_stay() {
    let close = parse_request_metadata("GET / HTTP/1.0\r\n\r\n").expect("head");
    assert!(close.close_after);
    let keep = parse_request_metadata("GET / HTTP/1.0\r\nConnection: keep-alive\r\n\r\n").expect("head");
    assert!(!keep.close_after);
    let modern = parse_request_metadata("GET / HTTP/1.1\r\n\r\n").expect("head");
    assert!(!modern.close_after);
}

#[test]
fn a_bare_head_has_defaults() {
    let meta = parse_request_metadata("").expect("head");
    assert_eq!(meta.method, "-");
    assert_eq!(meta.path, "/");
    assert_eq!(meta.http_version, "HTTP/1.1");
    assert_eq!(meta.content_length, 0);
}

#[test]
fn the_host_is_found() {
    assert_eq!(
        extract_host_header("GET / HTTP/1.1\r\nhOsT: example.org:8080\r\n"),
        Some("example.org:8080".to_string())
    );
    assert_eq!(extract_host_header("GET / HTTP/1.1\r\n"), None);
}

fn blank_tls() -> TlsConfig {
    TlsConfig {
        listen: String::new(),
        cert_path: String::new(),
        key_path: String::new(),
        redirect_http: false,
        http2: false,
        hsts_max_age_secs: None,
        hsts_include_subdomains: None,
    }
}

fn with(bytes: &[u8]) -> BytesMut {
    BytesMut::from(bytes)
}

#[test]
fn reading_a_request_goes_step_by_step() {
    let step = read_http_request(&with(b""), None, 100, 100);
    assert!(matches!(step, RequestStep::Read { idle: true }));
    let step = read_http_request(&with(b"GET / HT"), Some(ReadOutcome::Read(8)), 100, 100);
    assert!(matches!(step, RequestStep::Read { idle: false }));
    let step = read_http_request(
        &with(b"GET /a HTTP/1.1\r\nHost: x\r\n\r\nrest"),
        Some(ReadOutcome::Read(20)),
        100,
        100,
    );
    match step {
        RequestStep::Request(q) => {
            assert_eq!(q.method, "GET");
            assert_eq!(q.path, "/a");
            assert_eq!(q.headers, "GET /a HTTP/1.1\r\nHost: x");
            assert_eq!(q.body_start, 28);
        }
        other => panic!("{other:?}"),
    }
}

#[test]
fn each_refusal_has_its_request() {
    let b = with(b"GET / HTTP/1.1\r\nX: ");
    assert!(matches!(
        read_http_request(&b, None, 5, 0),
        RequestStep::Refuse(Refusal::HeadersTooLarge)
    ));
    assert!(matches!(
        read_http_request(&b, Some(ReadOutcome::Timeout), 0, 0),
        RequestStep::Refuse(Refusal::RequestTimeout)
    ));
    assert!(matches!(
        read_http_request(&with(b""), Some(ReadOutcome::Timeout), 0, 0),
        RequestStep::Close
    ));
    assert!(matches!(
        read_http_request(&b, Some(ReadOutcome::Read(0)), 0, 0),
        RequestStep::Close
    ));
    let big = with(b"POST / HTTP/1.1\r\nContent-Length: 11\r\n\r\n");
    assert!(matches!(
        read_http_request(&big, None, 0, 10),
        RequestStep::Refuse(Refusal::PayloadTooLarge)
    ));
    let bad = with(b"POST / HTTP/1.1\r\nContent-Length: 1, 2\r\n\r\n");
    assert!(matches!(
        read_http_request(&bad, None, 0, 10),
        RequestStep::Refuse(Refusal::BadRequest)
    ));
}

#[test]
fn bytes_that_are_no_text_are_replaced() {
    let step = read_http_request(&with(b"GET /\xff HTTP/1.1\r\n\r\n"), None, 0, 0);
    match step {
        RequestStep::Request(q) => assert_eq!(q.path, "/\u{fffd}"),
        other => panic!("{other:?}"),
    }
}

fn location(path: &str, kind: LocationType) -> LocationConfig {
    LocationConfig {
        server: "main".to_string(),
        path: path.to_string(),
        kind,
        root: None,
        index: None,
        upstream: None,
        strip_prefix: None,
        cache: None,
    }
}

fn server(locations: Vec<LocationConfig>, tls: Option<TlsConfig>) -> ServerRuntime {
    let mut config = ServerConfig::default();
    config.tls = tls;
    ServerRuntime::new("main".to_string(), config, locations)
}

fn request(head: &str) -> ParsedRequest {
    let mut bytes = head.as_bytes().to_vec();
    bytes.extend_from_slice(b"\r\n\r\n");
    match read_http_request(&with(&bytes), None, 0, 0) {
        RequestStep::Request(q) => q,
        other => panic!("{other:?}"),
    }
}

#[test]
fn the_longest_prefix_wins() {
    let ls = vec![
        location("/", LocationType::Static),
        location("/api", LocationType::Proxy),
        location("/api/v2", LocationType::Static),
        location("/api", LocationType::Static),
    ];
    assert_eq!(match_location(&ls, "/api/v2/x").path, "/api/v2");
    assert_eq!(match_location(&ls, "/index.html").path, "/");
    assert!(matches!(match_location(&ls, "/api/x").kind, LocationType::Static));
    let only = vec![location("/a", LocationType::Static), location("/b", LocationType::Static)];
    assert_eq!(match_location(&only, "/z").path, "/a");
}

fn metrics() -> CacheMetrics {
    CacheMetrics {
        memory_hits: 1,
        memory_misses: 2,
        disk_hits: 3,
        disk_misses: 4,
        disk_evictions: 0,
        disk_evicted_bytes: 0,
        disk_bytes: 0,
        disk_entries: 0,
    }
}

fn around(loopback: bool, is_tls: bool, tls_port: Option<u16>) -> Surrounding {
    Surrounding { loopback, is_tls, tls_port, metrics: metrics() }
}

#[test]
fn counters_are_for_the_same_machine() {
    assert!(is_cache_metrics_path("/_migux/cache"));
    assert!(is_cache_metrics_path("/_migux/cache/?x=1"));
    assert!(!is_cache_metrics_path("/_migux/cache2"));
    let shown = maybe_handle_cache_metrics("GET", "/_migux/cache", true, &metrics()).expect("answer");
    let text = String::from_utf8(shown).expect("text");
    assert!(text.ends_with(
        "\r\n\r\n{\"memory_hits\":1,\"memory_misses\":2,\"disk_hits\":3,\"disk_misses\":4}"
    ));
    assert!(text.starts_with("HTTP/1.1 200 OK\r\n"));
    let hidden = maybe_handle_cache_metrics("GET", "/_migux/cache", false, &metrics()).expect("answer");
    assert_eq!(hidden, build_refusal(Refusal::NotFound));
    let head = maybe_handle_cache_metrics("HEAD", "/_migux/cache", true, &metrics()).expect("answer");
    assert!(String::from_utf8(head).expect("text").contains("Content-Length: 0\r\n"));
    let post = maybe_handle_cache_metrics("POST", "/_migux/cache", true, &metrics()).expect("answer");
    assert_eq!(post, build_405_with_allow("GET, HEAD"));
    assert!(String::from_utf8(post).expect("text").contains("\r\nAllow: GET, HEAD\r\n"));
    assert!(maybe_handle_cache_metrics("GET", "/", true, &metrics()).is_none());
}

#[test]
fn hosts_are_split_from_ports() {
    let split = |h: &str| split_host_port(h);
    assert_eq!(split("example.org:8080"), ("example.org".to_string(), Some("8080".to_string())));
    assert_eq!(split(" example.org "), ("example.org".to_string(), None));
    assert_eq!(split("[::1]:8443"), ("[::1]".to_string(), Some("8443".to_string())));
    assert_eq!(split("[::1]"), ("[::1]".to_string(), None));
    assert_eq!(split("[::1"), ("[:".to_string(), Some("1".to_string())));
    assert_eq!(split("host:"), ("host:".to_string(), None));
    assert_eq!(split("host:80a"), ("host:80a".to_string(), None));
}

#[test]
fn redirects_name_the_port() {
    assert_eq!(build_https_redirect("a:80", "/x?y", Some(443)), "https://a/x?y");
    assert_eq!(build_https_redirect("a:80", "/x", Some(8443)), "https://a:8443/x");
    assert_eq!(build_https_redirect("a", "/", None), "https://a/");
}

#[test]
fn requests_are_planned() {
    let servers = vec![server(vec![location("/", LocationType::Static)], None)];
    let plan = plan_request(&servers, &request("GET / HTTP/1.1"), &around(true, false, None));
    assert!(matches!(plan, RequestPlan::Dispatch(0)));
    let none = vec![server(vec![], None)];
    match plan_request(&none, &request("GET / HTTP/1.1"), &around(true, false, None)) {
        RequestPlan::Respond(b) => assert_eq!(b, build_refusal(Refusal::NotFound)),
        other => panic!("{other:?}"),
    }
    let mut tls = blank_tls();
    tls.redirect_http = true;
    let secure = vec![server(vec![location("/", LocationType::Static)], Some(tls))];
    match plan_request(
        &secure,
        &request("GET /a HTTP/1.1\r\nHost: h:1"),
        &around(true, false, Some(8443)),
    ) {
        RequestPlan::Respond(b) => {
            let text = String::from_utf8(b).expect("text");
            assert!(text.contains("\r\nLocation: https://h:8443/a\r\n"));
            assert!(text.starts_with("HTTP/1.1 301 Moved Permanently\r\n"));
        }
        other => panic!("{other:?}"),
    }
    let plan = plan_request(&secure, &request("GET /a HTTP/1.1"), &around(true, true, Some(8443)));
    assert!(matches!(plan, RequestPlan::Dispatch(0)));
    let mut empty = request("GET / HTTP/1.1");
    empty.headers = String::new();
    assert!(matches!(
        plan_request(&servers, &empty, &around(true, false, None)),
        RequestPlan::Close
    ));
}

#[test]
fn locations_dispatch_by_kind() {
    let files = location("/", LocationType::Static);
    let other = location("/", LocationType::Proxy);
    assert_eq!(
        dispatch_location(&files, &request("GET / HTTP/1.1\r\nContent-Length: 3")),
        Dispatch::Static { keep_alive: true, discard: Discard::Bytes(3) }
    );
    assert_eq!(
        dispatch_location(
            &files,
            &request("HEAD / HTTP/1.1\r\nConnection: close\r\nTransfer-Encoding: chunked")
        ),
        Dispatch::Static { keep_alive: false, discard: Discard::Chunks }
    );
    assert_eq!(dispatch_location(&files, &request("POST / HTTP/1.1")), Dispatch::Refuse);
    assert_eq!(dispatch_location(&other, &request("POST / HTTP/1.1")), Dispatch::Proxy);
}

#[test]
fn failed_reads_end_a_body() {
    assert_eq!(body_read_error(None), Some(ChunkedBodyError::Io));
    assert_eq!(body_fault(ChunkFault::TooLarge), ChunkedBodyError::TooLarge);
    assert_eq!(body_fault(ChunkFault::Invalid), ChunkedBodyError::Invalid);
    assert_eq!(body_refusal(ChunkedBodyError::TooLarge), Refusal::PayloadTooLarge);
    assert_eq!(body_refusal(ChunkedBodyError::Timeout), Refusal::RequestTimeout);
    assert_eq!(body_refusal(ChunkedBodyError::Io), Refusal::BadRequest);
    assert_eq!(body_read_error(Some(ReadOutcome::Timeout)), Some(ChunkedBodyError::Timeout));
    assert_eq!(body_read_error(Some(ReadOutcome::Read(0))), Some(ChunkedBodyError::Invalid));
    assert_eq!(body_read_error(Some(ReadOutcome::Read(4))), None);
}

#[test]
fn a_connection_serves_one_request_after_another() {
    let http = HttpConfig::default();
    let mut c = Connection::new();
    assert_eq!(c.idle_timeout_secs(&http), http.client_read_timeout_secs);
    c.buffer().extend_from_slice(
        b"POST /a HTTP/1.1\r\nContent-Length: 3\r\n\r\nabcGET /b HTTP/1.1\r\n\r\n",
    );
    let first = match c.read_request(None, &http) {
        RequestStep::Request(q) => q,
        other => panic!("{other:?}"),
    };
    assert_eq!(first.path, "/a");
    c.drop_head(first.body_start);
    assert_eq!(discard_content_length(c.buffer(), first.content_length), 0);
    assert!(c.finish_request(false, first.close_after));
    assert_eq!(c.idle_timeout_secs(&http), http.keepalive_timeout_secs);
    let second = match c.read_request(None, &http) {
        RequestStep::Request(q) => q,
        other => panic!("{other:?}"),
    };
    assert_eq!(second.path, "/b");
    assert!(!c.finish_request(false, true));
    assert!(!c.finish_request(true, false));
}

#[test]
fn chunked_bodies_are_skipped_in_pieces() {
    let whole = b"3;ext=1\r\nabc\r\n10\r\n0123456789abcdef\r\n0\r\nX: y\r\n\r\nGET";
    for cut in 0..whole.len() {
        let mut scanner = ChunkScanner::new(0, true);
        let mut buf = with(&whole[..cut]);
        let first = discard_chunked_body(&mut scanner, &mut buf);
        if first != ScanVerdict::Done {
            assert_eq!(first, ScanVerdict::NeedRead, "{cut}");
        }
        buf.extend_from_slice(&whole[cut..]);
        if first != ScanVerdict::Done {
            assert_eq!(discard_chunked_body(&mut scanner, &mut buf), ScanVerdict::Done);
        }
        assert_eq!(&buf[..], b"GET");
    }
}

#[test]
fn bad_chunked_bodies_are_given_up() {
    let mut scanner = ChunkScanner::new(0, true);
    assert_eq!(
        discard_chunked_body(&mut scanner, &mut with(b"xyz\r\n")),
        ScanVerdict::Fail(ChunkFault::Invalid)
    );
    let mut scanner = ChunkScanner::new(4, true);
    assert_eq!(
        discard_chunked_body(&mut scanner, &mut with(b"5\r\nabcde\r\n")),
        ScanVerdict::Fail(ChunkFault::TooLarge)
    );
}

#[test]
fn a_length_is_discarded_as_far_as_it_has_come() {
    let mut buf = with(b"abcdef");
    assert_eq!(discard_content_length(&mut buf, 4), 0);
    assert_eq!(&buf[..], b"ef");
    assert_eq!(discard_content_length(&mut buf, 5), 3);
    assert!(buf.is_empty());
}

#[test]
fn whole_requests_are_read_with_their_bodies() {
    let mut buf = with(b"POST /u HTTP/1.1\r\nContent-Length: 3\r\n\r\nab");
    assert!(matches!(
        buffered::read_http_request(&mut buf, None, 0, 0),
        buffered::RequestStep::Read { idle: false }
    ));
    buf.extend_from_slice(b"cGET");
    match buffered::read_http_request(&mut buf, Some(ReadOutcome::Read(4)), 0, 0) {
        buffered::RequestStep::Request(q) => {
            assert_eq!(q.body, b"abc");
            assert_eq!(q.path, "/u");
            assert!(!q.close_after);
        }
        other => panic!("{other:?}"),
    }
    assert_eq!(&buf[..], b"GET");
    let mut big = with(b"POST / HTTP/1.1\r\nContent-Length: 9\r\n\r\n");
    assert!(matches!(
        buffered::read_http_request(&mut big, None, 0, 8),
        buffered::RequestStep::Refuse(Refusal::PayloadTooLarge)
    ));
    assert!(matches!(
        buffered::read_http_request(&mut big, Some(ReadOutcome::Timeout), 0, 0),
        buffered::RequestStep::Refuse(Refusal::RequestTimeout)
    ));
    assert!(matches!(
        buffered::read_http_request(&mut with(b"GET"), None, 2, 0),
        buffered::RequestStep::Refuse(Refusal::HeadersTooLarge)
    ));
}

#[test]
fn the_last_length_counts_where_lines_are_read_plainly() {
    let m = buffered::parse_request_metadata(
        "POST / HTTP/1.1\r\nContent-Length: 4\r\nContent-Length: x\r\ncontent-length: 7\r\nConnection: Upgrade, Close",
    );
    assert_eq!(m.content_length, 7);
    assert!(m.close_after);
}

#[test]
fn whole_requests_are_planned() {
    let servers = vec![server(
        vec![location("/", LocationType::Static), location("/api", LocationType::Proxy)],
        None,
    )];
    let rq = |method: &str, path: &str| buffered::ParsedRequest {
        headers: "x".to_string(),
        body: Vec::new(),
        method: method.to_string(),
        path: path.to_string(),
        close_after: false,
    };
    assert_eq!(buffered::plan_request(&servers, &rq("GET", "/a")), buffered::RequestPlan::Static(0));
    assert_eq!(buffered::plan_request(&servers, &rq("PUT", "/a")), buffered::RequestPlan::Refuse);
    assert_eq!(
        buffered::plan_request(&servers, &rq("PUT", "/api/x")),
        buffered::RequestPlan::Proxy { location: 1, close_after: false }
    );
}

#[test]
fn plain_requests_end_with_the_input() {
    assert!(server_core::read_http_request(b"GET / HTTP/1.1\r\n", false).is_none());
    let (head, body) = server_core::read_http_request(b"GET / HTTP/1.1\r\n", true).expect("request");
    assert_eq!(head, "GET / HTTP/1.1\r\n");
    assert!(body.is_empty());
    let part = b"PUT / HTTP/1.1\r\nContent-Length: 5\r\n\r\nabc";
    assert!(server_core::read_http_request(part, false).is_none());
    let (_, body) = server_core::read_http_request(part, true).expect("request");
    assert_eq!(body, b"abc");
    let (head, body) = server_core::read_http_request(b"", true).expect("request");
    assert!(head.is_empty() && body.is_empty());
}

#[test]
fn plain_requests_are_planned() {
    let servers = vec![server(vec![location("/", LocationType::Static)], None)];
    assert_eq!(server_core::handle_request(&servers, ""), server_core::RequestPlan::Close);
    assert_eq!(
        server_core::handle_request(&servers, "GET /x HTTP/1.1"),
        server_core::RequestPlan::Static(0)
    );
    assert_eq!(
        server_core::handle_request(&servers, "PUT /x HTTP/1.1"),
        server_core::RequestPlan::NotFound
    );
    let none = vec![server(vec![], None)];
    assert_eq!(
        server_core::handle_request(&none, "GET /x HTTP/1.1"),
        server_core::RequestPlan::NotFound
    );
    assert_eq!(
        server_core::parse_request_line("GET\r\n"),
        ("GET".to_string(), "/".to_string())
    );
}
