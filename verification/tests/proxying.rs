use bytes::BytesMut;
use dashmap::DashMap;
use migux::chunked::ChunkError;
use migux::migux_config::{
    LocationConfig, LocationType, MiguxConfig, UpstreamConfig, UpstreamHealthConfig,
    UpstreamServers,
};
use migux::migux_http::responses::Refusal;
use migux::migux_proxy::buffered::{read_http_response, BufferedFault, BufferedStep};
use migux::migux_proxy::headers::rewrite_proxy_headers;
use migux::migux_proxy::health::{check_schedule, health_key, health_policy, HealthPolicy};
use migux::migux_proxy::measured::{build_measured_head, whole_request};
use migux::migux_proxy::path::strip_prefix_path;
use migux::migux_proxy::response::{
    is_no_body, parse_response_headers, ResponseStreamer, StreamFault, StreamVerdict,
};
use migux::migux_proxy::serve::{ForwardState, Outcome, ProxyError, ServePlan};
use migux::migux_proxy::upstream::{
    choose_upstream_addr, choose_upstream_addrs_rr_order, normalize_servers,
    parse_servers_from_one,
};
use migux::migux_proxy::{bounded, Proxy};
use migux::{headers, text};

const SECOND: u64 = 1_000_000_000;

#[test]
fn filter_healthy_addrs_skips_down_nodes() {
    let mut proxy = Proxy::new();
    let policy = HealthPolicy { fail_threshold: 1, cooldown_secs: 60 };
    proxy.record_failure("api", "127.0.0.1:3000", &policy, 0);
    let addrs = vec!["127.0.0.1:3000".to_string(), "127.0.0.1:3001".to_string()];
    let filtered = proxy.filter_healthy_addrs("api", addrs, 0);
    assert_eq!(filtered, vec!["127.0.0.1:3001".to_string()]);
}

#[test]
fn filter_healthy_addrs_falls_back_when_all_down() {
    let mut proxy = Proxy::new();
    let policy = HealthPolicy { fail_threshold: 1, cooldown_secs: 60 };
    proxy.record_failure("api", "127.0.0.1:3000", &policy, 0);
    proxy.record_failure("api", "127.0.0.1:3001", &policy, 0);
    let addrs = vec!["127.0.0.1:3000".to_string(), "127.0.0.1:3001".to_string()];
    let filtered = proxy.filter_healthy_addrs("api", addrs.clone(), 0);
    assert_eq!(filtered, addrs);
}

#[test]
fn filter_healthy_addrs_recovers_after_cooldown() {
    let mut proxy = Proxy::new();
    let key = health_key("api", "127.0.0.1:3000");
    let now = 5 * SECOND;
    proxy.health.insert(key, (1, Some((now - SECOND) as u128)));
    let addrs = vec!["127.0.0.1:3000".to_string()];
    let filtered = proxy.filter_healthy_addrs("api", addrs, now);
    assert_eq!(filtered, vec!["127.0.0.1:3000".to_string()]);
}

#[test]
fn an_address_goes_down_at_the_threshold_only() {
    let mut proxy = Proxy::new();
    let policy = HealthPolicy { fail_threshold: 2, cooldown_secs: 3 };
    proxy.record_failure("api", "a", &policy, 0);
    assert!(proxy.is_healthy("api", "a", 0));
    proxy.record_failure("api", "a", &policy, 0);
    assert!(!proxy.is_healthy("api", "a", 0));
    assert!(!proxy.is_healthy("api", "a", 3 * SECOND - 1));
    assert!(proxy.is_healthy("api", "a", 3 * SECOND + 1));
    proxy.record_failure("api", "b", &policy, 0);
    proxy.record_success("api", "b");
    proxy.record_failure("api", "b", &policy, 0);
    assert!(proxy.is_healthy("api", "b", 0));
}

fn upstream(server: UpstreamServers, strategy: Option<&str>) -> UpstreamConfig {
    UpstreamConfig {
        server,
        strategy: strategy.map(|s| s.to_string()),
        health: UpstreamHealthConfig::default(),
    }
}

#[test]
fn health_settings_have_a_floor() {
    let mut cfg = upstream(UpstreamServers::One("a".to_string()), None);
    cfg.health.fail_threshold = 0;
    cfg.health.cooldown_secs = 7;
    assert_eq!(health_policy(&cfg).fail_threshold, 1);
    assert_eq!(health_policy(&cfg).cooldown_secs, 7);
    assert_eq!(check_schedule(&cfg), None);
    cfg.health.active = true;
    cfg.health.interval_secs = 0;
    cfg.health.timeout_secs = 4;
    assert_eq!(check_schedule(&cfg), Some((1, 4)));
}

#[test]
fn servers_are_read_from_one_text() {
    assert_eq!(parse_servers_from_one(" 127.0.0.1:3000 "), vec!["127.0.0.1:3000"]);
    assert_eq!(
        parse_servers_from_one("[\"a:1\", \"b:2\", ]"),
        vec!["a:1", "b:2"]
    );
    assert!(parse_servers_from_one("[]").is_empty());
    assert!(normalize_servers(&upstream(UpstreamServers::One("[]".to_string()), None)).is_err());
    assert_eq!(
        normalize_servers(&upstream(UpstreamServers::Many(vec!["x".to_string()]), None)).ok(),
        Some(vec!["x".to_string()])
    );
}

#[test]
fn addresses_take_turns() {
    let mut counters: DashMap<String, usize> = DashMap::new();
    let three = || {
        UpstreamServers::Many(vec!["a".to_string(), "b".to_string(), "c".to_string()])
    };
    let cfg = upstream(three(), Some("round_robin"));
    let mut order = || choose_upstream_addrs_rr_order(&mut counters, "api", &cfg).ok().expect("addrs");
    assert_eq!(order(), vec!["a", "b", "c"]);
    assert_eq!(order(), vec!["b", "c", "a"]);
    assert_eq!(order(), vec!["c", "a", "b"]);
    assert_eq!(order(), vec!["a", "b", "c"]);
    let single = upstream(three(), None);
    let mut counters: DashMap<String, usize> = DashMap::new();
    assert_eq!(
        choose_upstream_addrs_rr_order(&mut counters, "api", &single).ok(),
        Some(vec!["a".to_string(), "b".to_string(), "c".to_string()])
    );
    for expected in ["a", "b", "c", "a"] {
        assert_eq!(choose_upstream_addr(&mut counters, "one", &cfg).ok(), Some(expected.to_string()));
    }
}

#[test]
fn prefixes_are_stripped() {
    assert_eq!(strip_prefix_path("/api/users", "/api"), "/users");
    assert_eq!(strip_prefix_path("/api", "/api"), "/");
    assert_eq!(strip_prefix_path("/api/users", "/api/"), "/users");
    assert_eq!(strip_prefix_path("/other", "/api"), "/other");
}

#[test]
fn headers_are_rewritten() {
    let head = "GET / HTTP/1.1\r\nHost: h\r\nConnection: close\r\nX-Real-IP: 6.6.6.6\r\nTE: x\r\nAccept: a\r\n";
    assert_eq!(
        rewrite_proxy_headers(head, "1.2.3.4", true),
        "Host: h\r\nAccept: a\r\nX-Forwarded-For: 1.2.3.4\r\nX-Real-IP: 1.2.3.4\r\nX-Forwarded-Proto: http\r\nX-Forwarded-Host: h\r\nConnection: keep-alive\r\n"
    );
    assert!(rewrite_proxy_headers("GET / HTTP/1.1\r\n", "::1", false).ends_with("Connection: close\r\n"));
}

#[test]
fn upstreams_read_what_is_meant() {
    let head = "GET / HTTP/1.1\r\n  Host :  h \r\nAccept: a: b\r\nno field\r\nX:\r\n";
    let sent = format!("GET / HTTP/1.1\r\n{}", rewrite_proxy_headers(head, "::1", false));
    let chars = text::chars_of(&sent);
    let lines = headers::head_lines(&chars);
    let fields: Vec<(String, String)> = headers::parse_fields(&lines)
        .iter()
        .map(|(n, v)| (text::string_of(n), text::string_of(v)))
        .collect();
    let expected = [
        ("Host", "h"),
        ("Accept", "a: b"),
        ("X", ""),
        ("X-Forwarded-For", "::1"),
        ("X-Real-IP", "::1"),
        ("X-Forwarded-Proto", "http"),
        ("X-Forwarded-Host", "h"),
        ("Connection", "close"),
    ];
    assert_eq!(fields.len(), expected.len());
    for (f, e) in fields.iter().zip(expected.iter()) {
        assert_eq!((f.0.as_str(), f.1.as_str()), *e);
    }
}

#[test]
fn chunked_requests_are_made_whole() {
    let head = "POST /p HTTP/1.1\r\nHost: h\r\ncontent-LENGTH: 99\r\nTransfer-Encoding: chunked";
    let (whole, body) = whole_request(head, b"3\r\nabc\r\n2\r\nde\r\n0\r\n\r\n").expect("chunks");
    assert_eq!(
        whole,
        "POST /p HTTP/1.1\r\nHost: h\r\nTransfer-Encoding: chunked\r\nContent-Length: 5\r\n"
    );
    assert_eq!(body, b"abcde");
    assert_eq!(
        rewrite_proxy_headers(&whole, "1.2.3.4", true),
        "Host: h\r\nContent-Length: 5\r\nX-Forwarded-For: 1.2.3.4\r\nX-Real-IP: 1.2.3.4\r\n\
         X-Forwarded-Proto: http\r\nX-Forwarded-Host: h\r\nConnection: keep-alive\r\n"
    );
    assert_eq!(whole_request(head, b"3\r\nab").unwrap_err(), ChunkError::TooShort);
    assert_eq!(build_measured_head("", 0), "\r\nContent-Length: 0\r\n");
}

#[test]
fn pooled_connections_are_used_again() {
    let mut proxy = Proxy::new();
    assert_eq!(proxy.checkout_upstream_stream("a", 0, 10), (None, vec![]));
    assert!(proxy.checkin_upstream_stream("a", 1, 0, 2));
    assert!(proxy.checkin_upstream_stream("a", 2, 5 * SECOND, 2));
    assert!(!proxy.checkin_upstream_stream("a", 3, 5 * SECOND, 2));
    assert_eq!(proxy.checkout_upstream_stream("b", 0, 10).0, None);
    assert_eq!(proxy.checkout_upstream_stream("a", 6 * SECOND, 10), (Some(2), vec![]));
    assert_eq!(proxy.checkout_upstream_stream("a", 20 * SECOND, 10), (None, vec![1]));
}

#[test]
fn bounded_pools_are_bounded() {
    let mut proxy = bounded::Proxy::new(1);
    proxy.ensure_upstream_counter("api");
    assert!(proxy.checkin_upstream_stream("a", 1));
    assert!(!proxy.checkin_upstream_stream("a", 2));
    assert_eq!(proxy.checkout_upstream_stream("a"), Some(1));
    assert_eq!(proxy.checkout_upstream_stream("a"), None);
}

fn location(upstream: Option<&str>) -> LocationConfig {
    LocationConfig {
        server: "main".to_string(),
        path: "/api".to_string(),
        kind: LocationType::Proxy,
        root: None,
        index: None,
        upstream: upstream.map(|u| u.to_string()),
        strip_prefix: None,
        cache: None,
    }
}

fn config() -> MiguxConfig {
    let mut cfg = MiguxConfig::default();
    cfg.upstream.insert(
        "back".to_string(),
        upstream(UpstreamServers::One("127.0.0.1:3000".to_string()), None),
    );
    cfg.upstream.insert("none".to_string(), upstream(UpstreamServers::Many(vec![]), None));
    cfg
}

#[test]
fn requests_for_upstreams_are_planned() {
    let mut proxy = Proxy::new();
    let cfg = config();
    let plan = proxy
        .plan(
            &location(Some("back")),
            "/api/x",
            "PUT /api/x HTTP/1.1\r\nA: b",
            b"body",
            &cfg,
            "9.9.9.9",
            true,
        )
        .expect("plan");
    match plan {
        ServePlan::Forward { addrs, request, method } => {
            assert_eq!(addrs, vec!["127.0.0.1:3000"]);
            assert_eq!(method, "PUT");
            assert_eq!(
                String::from_utf8(request).expect("text"),
                "PUT /x HTTP/1.1\r\nA: b\r\nX-Forwarded-For: 9.9.9.9\r\nX-Real-IP: 9.9.9.9\r\nX-Forwarded-Proto: http\r\nConnection: keep-alive\r\n\r\nbody"
            );
        }
        other => panic!("{other:?}"),
    }
    let mut fails = |l: &LocationConfig, head: &str| proxy.plan(l, "/api", head, b"", &cfg, "x", true);
    assert!(matches!(fails(&location(None), "GET / HTTP/1.1"), Err(ProxyError::MissingUpstream)));
    assert!(matches!(
        fails(&location(Some("gone")), "GET / HTTP/1.1"),
        Err(ProxyError::UnknownUpstream(n)) if n == "gone"
    ));
    assert!(matches!(fails(&location(Some("none")), "GET / HTTP/1.1"), Err(ProxyError::NoServers)));
    assert!(matches!(
        fails(&location(Some("back")), ""),
        Ok(ServePlan::Refuse(Refusal::NotFound))
    ));
}

#[test]
fn tunnelled_requests_keep_their_headers() {
    let mut proxy = Proxy::new();
    let plan = proxy
        .plan_tunnel(
            &location(Some("back")),
            "/api",
            "GET /api HTTP/1.0\r\nConnection: x",
            b"",
            &config(),
        )
        .expect("plan");
    match plan {
        ServePlan::Forward { request, .. } => {
            assert_eq!(request, b"GET / HTTP/1.0\r\nConnection: x\r\n\r\n")
        }
        other => panic!("{other:?}"),
    }
}

#[test]
fn failing_addresses_are_followed_by_the_next() {
    let s = ForwardState::start(2);
    assert_eq!(s, ForwardState::Checkout(0));
    let s = s.advance(2, Outcome::Worked);
    assert_eq!(s, ForwardState::Write(0));
    let s = s.advance(2, Outcome::Failed);
    assert_eq!(s, ForwardState::Reconnect(0));
    let s = s.advance(2, Outcome::Worked);
    assert_eq!(s, ForwardState::Rewrite(0));
    let s = s.advance(2, Outcome::Failed);
    assert_eq!(s, ForwardState::Checkout(1));
    let s = s.advance(2, Outcome::Worked).advance(2, Outcome::Worked);
    assert_eq!(s, ForwardState::Stream(1));
    assert_eq!(s.advance(2, Outcome::WorkedReusable), ForwardState::Served(1, true));
    assert_eq!(s.advance(2, Outcome::Worked), ForwardState::Served(1, false));
    assert_eq!(s.advance(2, Outcome::Failed), ForwardState::GaveUp);
    assert_eq!(ForwardState::start(0), ForwardState::GaveUp);
}

#[test]
fn heads_of_responses_are_read() {
    let info = parse_response_headers(
        b"HTTP/1.0 204 No Content\r\nContent-Length: 5\r\nConnection: Keep-Alive\r\n\r\n",
    );
    assert_eq!(info.status_code, Some(204));
    assert_eq!(info.content_length, Some(5));
    assert!(info.is_http10 && info.connection_keep_alive && !info.connection_close);
    assert!(is_no_body("HEAD", Some(200)));
    assert!(is_no_body("GET", Some(304)));
    assert!(is_no_body("GET", Some(100)));
    assert!(!is_no_body("GET", Some(200)));
    assert!(!is_no_body("GET", None));
}

fn stream(method: &str, pieces: &[&[u8]], max_headers: usize, max_body: usize) -> (Vec<u8>, StreamVerdict) {
    let mut s = ResponseStreamer::new(method, max_headers, max_body);
    let mut buf = BytesMut::new();
    let mut sent = Vec::new();
    for piece in pieces {
        buf.extend_from_slice(piece);
        loop {
            let (out, verdict) = s.step(&mut buf);
            sent.extend_from_slice(&out);
            match verdict {
                StreamVerdict::Continue => {}
                StreamVerdict::NeedRead => break,
                other => return (sent, other),
            }
        }
    }
    (sent, s.end_of_input())
}

#[test]
fn responses_are_passed_on() {
    let whole: &[u8] = b"HTTP/1.1 200 OK\r\nContent-Length: 3\r\n\r\nabc";
    for cut in 0..whole.len() {
        let (sent, verdict) = stream("GET", &[&whole[..cut], &whole[cut..]], 0, 0);
        assert_eq!(sent, whole);
        assert_eq!(verdict, StreamVerdict::Done(true));
    }
    let chunked: &[u8] =
        b"HTTP/1.1 200 OK\r\nTransfer-Encoding: chunked\r\nConnection: close\r\n\r\n2\r\nab\r\n0\r\nX: y\r\n\r\n";
    for cut in 0..chunked.len() {
        let (sent, verdict) = stream("GET", &[&chunked[..cut], &chunked[cut..]], 0, 0);
        assert_eq!(sent, chunked);
        assert_eq!(verdict, StreamVerdict::Done(false));
    }
    let open: &[u8] = b"HTTP/1.1 200 OK\r\n\r\nuntil the end";
    let (sent, verdict) = stream("GET", &[open], 0, 0);
    assert_eq!(sent, open);
    assert_eq!(verdict, StreamVerdict::Done(false));
    let head: &[u8] = b"HTTP/1.1 200 OK\r\nContent-Length: 3\r\n\r\n";
    assert_eq!(stream("HEAD", &[head], 0, 0), (head.to_vec(), StreamVerdict::Done(true)));
}

#[test]
fn responses_that_break_off_are_given_up() {
    let fault = |pieces: &[&[u8]], h: usize, b: usize| stream("GET", pieces, h, b).1;
    assert_eq!(
        fault(&[b"HTTP/1.1 200"], 0, 0),
        StreamVerdict::Fail(StreamFault::ClosedInHeaders)
    );
    assert_eq!(
        fault(&[b"HTTP/1.1 200 OK\r\n"], 4, 0),
        StreamVerdict::Fail(StreamFault::HeadersTooLarge)
    );
    assert_eq!(
        fault(&[b"HTTP/1.1 200 OK\r\nContent-Length: 9\r\n\r\n"], 0, 8),
        StreamVerdict::Fail(StreamFault::BodyTooLarge)
    );
    assert_eq!(
        fault(&[b"HTTP/1.1 200 OK\r\nTransfer-Encoding: chunked\r\n\r\nzz\r\n"], 0, 0),
        StreamVerdict::Fail(StreamFault::InvalidChunk)
    );
    assert_eq!(
        fault(&[b"HTTP/1.1 200 OK\r\nTransfer-Encoding: chunked\r\n\r\n2\r\na"], 0, 0),
        StreamVerdict::Fail(StreamFault::ClosedInBody)
    );
}

#[test]
fn whole_responses_are_read() {
    match read_http_response(b"HTTP/1.1 200 OK\r\nContent-Length: 2\r\n\r\nabX", false) {
        BufferedStep::Done(bytes, reusable) => {
            assert_eq!(bytes, b"HTTP/1.1 200 OK\r\nContent-Length: 2\r\n\r\nab");
            assert!(reusable);
        }
        other => panic!("{other:?}"),
    }
    assert!(matches!(
        read_http_response(b"HTTP/1.1 200 OK\r\nContent-Length: 2\r\n\r\na", false),
        BufferedStep::NeedMore
    ));
    assert!(matches!(read_http_response(b"", true), BufferedStep::Fail(BufferedFault::NoResponse)));
    assert!(matches!(
        read_http_response(b"HTTP/1.1", true),
        BufferedStep::Fail(BufferedFault::ClosedInHeaders)
    ));
}
