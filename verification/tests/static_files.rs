use migux::migux_config::{HttpConfig, LocationConfig, LocationType, ServerConfig};
use migux::migux_static::cache::{
    build_cache_key, cache_metrics_snapshot, CachePolicy, MemoryCache,
};
use migux::migux_static::conditional::{
    if_none_match_satisfied, parse_if_modified_since, parse_if_none_match,
    parse_if_none_match_value, should_return_not_modified,
    should_return_not_modified_if_modified_since, IfNoneMatch,
};
use migux::migux_static::disk::{
    cache_file_names, format_meta_record, insert_record, key_from_meta_name, parse_meta_record,
    put_record, temp_name, DiskCounters, Listed, Lookup,
};
use migux::migux_static::etag::{last_modified_header, weak_etag_size_mtime};
use migux::migux_static::fs::{is_safe_request_path, PathResolver};
use migux::migux_static::index::{CacheSettings, DiskCacheIndex, DiskMetaRecord, Item};
use migux::migux_static::response::{decimal_len, ResponseBuilder};
use migux::migux_static::service::{
    may_store, FileContents, FileFacts, StaticRequest, StaticService, StaticStep,
};
use std::hash::{Hash, Hasher};
use std::time::UNIX_EPOCH;

#[test]
fn parse_if_none_match_single() {
    let parsed = parse_if_none_match_value(r#""abc""#).expect("expected tags");
    assert!(if_none_match_satisfied(&parsed, "abc"));
    assert!(!if_none_match_satisfied(&parsed, "nope"));
}

#[test]
fn parse_if_none_match_list() {
    let parsed = parse_if_none_match_value(r#""a", "b", W/"c""#).expect("expected tags");
    assert!(if_none_match_satisfied(&parsed, "b"));
    assert!(if_none_match_satisfied(&parsed, "c"));
    assert!(!if_none_match_satisfied(&parsed, "d"));
    match parsed {
        IfNoneMatch::Tags(tags) => assert_eq!(tags, vec!["a", "b", "c"]),
        IfNoneMatch::Any => panic!("expected tag list"),
    }
}

#[test]
fn parse_if_none_match_wildcard() {
    let parsed = parse_if_none_match_value("*").expect("expected wildcard");
    assert!(matches!(parsed, IfNoneMatch::Any));
    assert!(if_none_match_satisfied(&parsed, "anything"));
}

#[test]
fn parse_if_none_match_header() {
    let headers = "GET / HTTP/1.1\r\nHost: example\r\nIf-None-Match: \"etag\"\r\n\r\n";
    let parsed = parse_if_none_match(headers).expect("expected header value");
    assert!(if_none_match_satisfied(&parsed, "etag"));
}

fn date(s: &str) -> Option<u128> {
    let t = httpdate::parse_http_date(s).ok()?;
    Some(t.duration_since(UNIX_EPOCH).ok()?.as_nanos())
}

#[test]
fn parse_if_modified_since_header() {
    let headers = "GET / HTTP/1.1\r\nHost: x\r\nIf-Modified-Since: Fri, 15 May 2015 15:34:21 GMT\r\n\r\n";
    let t = parse_if_modified_since(headers).expect("expected date");
    let formatted = httpdate::fmt_http_date(UNIX_EPOCH + std::time::Duration::from_secs(t));
    assert_eq!(formatted, "Fri, 15 May 2015 15:34:21 GMT");
}

#[test]
fn should_304_if_modified_since_same_or_later() {
    let headers = "GET / HTTP/1.1\r\nIf-Modified-Since: Fri, 15 May 2015 15:34:21 GMT\r\n\r\n";
    let file_mtime = date("Fri, 15 May 2015 15:34:21 GMT");
    assert!(should_return_not_modified_if_modified_since("GET", headers, file_mtime));

    let file_mtime_earlier = date("Thu, 14 May 2015 12:00:00 GMT");
    assert!(should_return_not_modified_if_modified_since("GET", headers, file_mtime_earlier));
}

#[test]
fn should_not_304_if_modified_since_older() {
    let headers = "GET / HTTP/1.1\r\nIf-Modified-Since: Fri, 15 May 2015 15:34:21 GMT\r\n\r\n";
    let file_mtime = date("Sat, 16 May 2015 10:00:00 GMT");
    assert!(!should_return_not_modified_if_modified_since("GET", headers, file_mtime));
}

#[test]
fn if_modified_since_ignored_for_post() {
    let headers = "POST / HTTP/1.1\r\nIf-Modified-Since: Fri, 15 May 2015 15:34:21 GMT\r\n\r\n";
    let file_mtime = date("Fri, 15 May 2015 15:34:21 GMT");
    assert!(!should_return_not_modified_if_modified_since("POST", headers, file_mtime));
}

#[test]
fn broken_dates_are_ignored() {
    let headers = "GET / HTTP/1.1\r\nIf-Modified-Since: yesterday\r\n\r\n";
    assert_eq!(parse_if_modified_since(headers), None);
    assert!(!should_return_not_modified_if_modified_since("GET", headers, Some(0)));
}

#[test]
fn parts_of_a_second_do_not_count() {
    let headers = "GET / HTTP/1.1\r\nIf-Modified-Since: Fri, 15 May 2015 15:34:21 GMT\r\n\r\n";
    let mtime = date("Fri, 15 May 2015 15:34:21 GMT").map(|n| n + 999_999_999);
    assert!(should_return_not_modified_if_modified_since("GET", headers, mtime));
}

#[test]
fn tags_come_from_size_and_time() {
    let tag = weak_etag_size_mtime(12, Some(34));
    assert_eq!(tag.value, "12-34");
    assert_eq!(tag.header, "W/\"12-34\"");
    assert_eq!(weak_etag_size_mtime(12, None).value, "12-0");
    let head = format!("GET / HTTP/1.1\r\nIf-None-Match: {}\r\n\r\n", tag.header);
    assert!(should_return_not_modified("GET", &head, &tag.value));
    assert!(should_return_not_modified("HEAD", &head, &tag.value));
    assert!(!should_return_not_modified("POST", &head, &tag.value));
    assert!(!should_return_not_modified("GET", &head, "12-35"));
}

#[test]
fn dates_are_written() {
    assert_eq!(
        last_modified_header(Some(1_431_704_061_500_000_000)),
        Some("Fri, 15 May 2015 15:34:21 GMT".to_string())
    );
    assert_eq!(last_modified_header(None), None);
}

#[test]
fn paths_that_lead_upwards_are_refused() {
    for bad in ["/../etc", "/a/../../b", "/%2e%2e/x", "/a/%2E%2e", "/..%2fetc", "/a\\..\\b", "/a//b", "/a%2f/b"] {
        assert!(!is_safe_request_path(bad), "{bad}");
        assert_eq!(PathResolver::resolve_relative_path(bad, "/", "index.html"), None, "{bad}");
    }
    assert!(is_safe_request_path("/a/..b/c"));
}

#[test]
fn paths_become_files() {
    let r = |p: &str, l: &str| PathResolver::resolve_relative_path(p, l, "index.html");
    assert_eq!(r("/", "/"), Some("index.html".to_string()));
    assert_eq!(r("/a/b.css?v=1", "/"), Some("a/b.css".to_string()));
    assert_eq!(r("/static/x.js", "/static"), Some("x.js".to_string()));
    assert_eq!(r("/static", "/static"), Some("index.html".to_string()));
}

fn server() -> ServerConfig {
    let mut s = ServerConfig::default();
    s.root = "/srv".to_string();
    s
}

fn location() -> LocationConfig {
    LocationConfig {
        server: "main".to_string(),
        path: "/".to_string(),
        kind: LocationType::Static,
        root: None,
        index: None,
        upstream: None,
        strip_prefix: None,
        cache: None,
    }
}

fn rq<'a>(method: &'a str, headers: &'a str) -> StaticRequest<'a> {
    StaticRequest { method, headers, keep_alive: true, hsts: None, now_secs: 0 }
}

fn facts() -> FileFacts {
    FileFacts::File { len: 2, mtime_nanos: Some(1_000_000_000) }
}

#[test]
fn files_are_served() {
    let (s, l) = (server(), location());
    let service = StaticService::new(&s, &l);
    assert_eq!(service.file_path("/a.txt"), Some("/srv/a.txt".to_string()));
    let q = rq("GET", "GET /a.txt HTTP/1.1");
    let file = match service.serve_bytes("/a.txt", facts(), &q) {
        StaticStep::Read(f) => f,
        other => panic!("{other:?}"),
    };
    assert_eq!(file.content_type, "text/plain; charset=utf-8");
    assert_eq!(file.cache_key(None), "/srv/a.txt|2|1000000000|no-hsts");
    assert_eq!(file.cache_key(Some("x")), "/srv/a.txt|2|1000000000|hsts");
    let sent = service.serve_read(&file, FileContents::Bytes(b"hi".to_vec()), &q);
    assert_eq!(
        String::from_utf8(sent).expect("text"),
        "HTTP/1.1 200 OK\r\nContent-Length: 2\r\nContent-Type: text/plain; charset=utf-8\r\n\
         ETag: W/\"2-1000000000\"\r\nLast-Modified: Thu, 01 Jan 1970 00:00:01 GMT\r\n\
         Connection: keep-alive\r\n\r\nhi"
    );
    assert_eq!(
        service.serve_read(&file, FileContents::Missing, &q),
        ResponseBuilder::not_found(true)
    );
    assert_eq!(
        service.serve_read(&file, FileContents::Failed, &q),
        ResponseBuilder::internal_error(true)
    );
}

#[test]
fn what_is_no_file_is_not_found() {
    let (s, l) = (server(), location());
    let service = StaticService::new(&s, &l);
    let q = rq("GET", "GET / HTTP/1.1");
    for facts in [FileFacts::Missing, FileFacts::NoFile] {
        match service.serve_bytes("/x", facts, &q) {
            StaticStep::Respond(b) => assert_eq!(b, ResponseBuilder::not_found(true)),
            other => panic!("{other:?}"),
        }
    }
    match service.serve_bytes("/x", FileFacts::Unknown, &q) {
        StaticStep::Respond(b) => assert_eq!(b, ResponseBuilder::internal_error(true)),
        other => panic!("{other:?}"),
    }
    match service.serve_bytes("/../x", facts(), &q) {
        StaticStep::Respond(b) => assert_eq!(b, ResponseBuilder::not_found(true)),
        other => panic!("{other:?}"),
    }
}

#[test]
fn known_files_are_not_sent_again() {
    let (s, l) = (server(), location());
    let service = StaticService::new(&s, &l);
    let head = "GET /a HTTP/1.1\r\nIf-None-Match: W/\"2-1000000000\"\r\n";
    match service.serve_bytes("/a", facts(), &rq("GET", head)) {
        StaticStep::Respond(b) => {
            let text = String::from_utf8(b).expect("text");
            assert!(text.starts_with("HTTP/1.1 304 Not Modified\r\nContent-Length: 0\r\nETag: "));
            assert!(text.contains("\r\nDate: Thu, 01 Jan 1970 00:00:00 GMT\r\n"));
        }
        other => panic!("{other:?}"),
    }
    let mut q = rq("HEAD", "HEAD /a HTTP/1.1");
    q.hsts = Some("max-age=5");
    q.keep_alive = false;
    match service.serve_bytes("/a", facts(), &q) {
        StaticStep::Respond(b) => {
            let text = String::from_utf8(b).expect("text");
            assert!(text.starts_with("HTTP/1.1 200 OK\r\nContent-Length: 2\r\n"));
            assert!(text.contains("\r\nContent-Type: application/octet-stream\r\n"));
            assert!(text.ends_with(
                "\r\nStrict-Transport-Security: max-age=5\r\nConnection: close\r\n\r\n"
            ));
        }
        other => panic!("{other:?}"),
    }
}

fn caching() -> HttpConfig {
    let mut http = HttpConfig::default();
    http.cache_dir = Some("/tmp/c".to_string());
    http.cache_default_ttl_secs = Some(2);
    http.cache_max_object_bytes = Some(10);
    http
}

#[test]
fn responses_are_cached_in_memory() {
    let (s, l) = (server(), location());
    let service = StaticService::new(&s, &l);
    let http = caching();
    let q = rq("GET", "GET /a HTTP/1.1");
    let mut memory = MemoryCache::new();
    let file = match service.serve_bytes_cached(&mut memory, "/a", facts(), &q, 5) {
        StaticStep::Read(f) => f,
        other => panic!("{other:?}"),
    };
    let (sent, stored) = service.serve_read_cached(
        &http,
        &mut memory,
        &file,
        FileContents::Bytes(b"hi".to_vec()),
        &q,
        5,
    );
    assert!(stored);
    let end = 5 + 2_000_000_000;
    match service.serve_bytes_cached(&mut memory, "/a", facts(), &q, end) {
        StaticStep::Respond(b) => assert_eq!(b, sent),
        other => panic!("{other:?}"),
    }
    assert!(matches!(
        service.serve_bytes_cached(&mut memory, "/a", facts(), &q, end + 1),
        StaticStep::Read(_)
    ));
    assert_eq!((memory.hits(), memory.misses()), (1, 2));
    service.keep_found(&http, &mut memory, &file, b"from disk", &q, 9);
    match service.serve_bytes_cached(&mut memory, "/a", facts(), &q, 9) {
        StaticStep::Respond(b) => assert_eq!(b, b"from disk"),
        other => panic!("{other:?}"),
    }
    let m = cache_metrics_snapshot(&memory, None, 7, 8);
    assert_eq!((m.memory_hits, m.memory_misses, m.disk_hits, m.disk_misses), (2, 2, 7, 8));
    assert_eq!((m.disk_entries, m.disk_bytes), (0, 0));
}

#[test]
fn large_responses_are_not_cached() {
    let http = caching();
    assert!(may_store(&http, 10));
    assert!(!may_store(&http, 11));
    let mut off = caching();
    off.cache_default_ttl_secs = Some(0);
    assert!(!may_store(&off, 1));
    let mut unlimited = caching();
    unlimited.cache_max_object_bytes = Some(0);
    assert!(!may_store(&unlimited, 1));
    let mut memory = MemoryCache::new();
    memory.put(1, b"x".to_vec(), 0, 0);
    assert_eq!(memory.get(1, 0), None);
}

#[test]
fn caching_is_switched_by_location_and_method() {
    let http = caching();
    let mut l = location();
    assert!(CachePolicy::enabled(&http, &l, "GET"));
    assert!(!CachePolicy::enabled(&http, &l, "HEAD"));
    l.cache = Some(false);
    assert!(!CachePolicy::enabled(&http, &l, "GET"));
    l.cache = Some(true);
    assert!(CachePolicy::enabled(&http, &l, "GET"));
    assert!(!CachePolicy::enabled(&HttpConfig::default(), &l, "GET"));
}

#[test]
fn cache_keys_hash_every_attribute() {
    let mut h = std::collections::hash_map::DefaultHasher::new();
    "/a".hash(&mut h);
    2u64.hash(&mut h);
    3u128.hash(&mut h);
    true.hash(&mut h);
    let key = build_cache_key("/a", 2, 3, true);
    assert_eq!(key, h.finish());
    assert_ne!(key, build_cache_key("/b", 2, 3, true));
    assert_ne!(key, build_cache_key("/a", 1, 3, true));
    assert_ne!(key, build_cache_key("/a", 2, 4, true));
    assert_ne!(key, build_cache_key("/a", 2, 3, false));
}

#[test]
fn responses_are_built_exactly() {
    assert_eq!(
        ResponseBuilder::plain_text("404 Not Found", "404 Not Found", false),
        b"HTTP/1.1 404 Not Found\r\nContent-Length: 13\r\nContent-Type: text/plain; charset=utf-8\r\nConnection: close\r\n\r\n404 Not Found"
    );
    let extra = vec![("X".to_string(), "y".to_string())];
    assert_eq!(
        ResponseBuilder::build_empty("204 No Content", true, &extra),
        b"HTTP/1.1 204 No Content\r\nContent-Length: 0\r\nX: y\r\nConnection: keep-alive\r\n\r\n"
    );
    for n in [0usize, 9, 10, 12345] {
        assert_eq!(decimal_len(n), n.to_string().len());
    }
}

#[test]
fn names_of_cached_files_read_back() {
    let (data, meta) = cache_file_names(0x1a);
    assert_eq!(data, "000000000000001a.cache");
    assert_eq!(meta, "000000000000001a.meta");
    assert_eq!(key_from_meta_name(&meta), Some(0x1a));
    assert_eq!(key_from_meta_name(&data), None);
    assert_eq!(key_from_meta_name("zz.meta"), None);
    assert_eq!(temp_name("a.cache", 12), "a.cache.tmp-12");
}

#[test]
fn records_of_cached_files_read_back() {
    let r = DiskMetaRecord { expires_at: 5, last_access: 6, size: 7 };
    let text = format_meta_record(&r);
    assert_eq!(text, "expires_at=5\nlast_access=6\nsize=7\n");
    let back = parse_meta_record(&text).expect("record");
    assert_eq!((back.expires_at, back.last_access, back.size), (5, 6, 7));
    let old = parse_meta_record(" 42\n").expect("record");
    assert_eq!((old.expires_at, old.last_access, old.size), (42, 42, 0));
    let partial = parse_meta_record("expires_at = 9\n\nother=1\n").expect("record");
    assert_eq!((partial.expires_at, partial.last_access, partial.size), (9, 9, 0));
    assert!(parse_meta_record("nonsense").is_none());
    assert!(parse_meta_record("size=3\n").is_none());
}

fn settings(bytes: u64, entries: usize, inactive: u64) -> CacheSettings {
    CacheSettings { max_total_bytes: bytes, max_entries: entries, inactive_secs: inactive }
}

fn item(key: u64, size: u64) -> Item {
    Item { key, size, expires_at: 100, last_access: key }
}

#[test]
fn the_least_recently_used_object_leaves_first() {
    let mut index = DiskCacheIndex::new("/c");
    for k in 1..=3 {
        index.insert(item(k, 10));
    }
    assert_eq!(index.total_bytes(), 30);
    assert!(index.touch(1, 50).is_some());
    assert_eq!(index.evict_to_limits(settings(20, 0, 0)), vec![2]);
    assert_eq!(index.evict_to_limits(settings(0, 1, 0)), vec![3]);
    assert_eq!((index.len(), index.total_bytes()), (1, 10));
    assert_eq!((index.evictions(), index.evicted_bytes()), (2, 20));
    assert!(index.remove(9).is_none());
    assert_eq!(index.pop_lru().map(|i| i.key), Some(1));
    assert!(index.pop_lru().is_none());
}

#[test]
fn idle_objects_leave() {
    let mut index = DiskCacheIndex::new("/c");
    for k in 1..=3 {
        index.insert(item(k, 1));
    }
    assert_eq!(index.evict_inactive(12, 0), Vec::<u64>::new());
    assert_eq!(index.evict_inactive(12, 9), vec![1, 2]);
    assert_eq!(index.len(), 1);
}

#[test]
fn objects_are_looked_up_and_stored() {
    let mut index = DiskCacheIndex::new("/c");
    let s = settings(25, 2, 0);
    let r = put_record(10, 20, 1, s).expect("record");
    assert_eq!((r.expires_at, r.last_access, r.size), (11, 1, 20));
    assert!(put_record(0, 20, 1, s).is_none());
    assert!(put_record(10, 26, 1, s).is_none());
    insert_record(&mut index, 1, &r);
    assert!(matches!(index.lookup(2, 2, s), Lookup::Absent));
    assert!(matches!(index.lookup(1, 11, s), Lookup::Present(m) if m.last_access == 11));
    let (evicted, fits) = index.make_room(2, 10, 11, s);
    assert_eq!((evicted, fits), (vec![1], true));
    insert_record(&mut index, 2, &DiskMetaRecord { expires_at: 12, last_access: 11, size: 10 });
    assert!(matches!(index.lookup(2, 13, s), Lookup::Expired));
    assert!(matches!(index.lookup(2, 13, s), Lookup::Absent));
}

#[test]
fn lookups_on_disk_are_counted() {
    let there = Lookup::Present(DiskMetaRecord { expires_at: 9, last_access: 1, size: 2 });
    let c = DiskCounters::new().count(there, true);
    assert_eq!(c, DiskCounters { hits: 1, misses: 0 });
    let c = c.count(there, false).count(Lookup::Absent, true).count(Lookup::Expired, true);
    assert_eq!(c, DiskCounters { hits: 1, misses: 3 });
    let full = DiskCounters { hits: u64::MAX, misses: 0 };
    assert_eq!(full.count(there, true), DiskCounters::new());
}

#[test]
fn a_key_occurs_once() {
    let mut index = DiskCacheIndex::new("/c");
    index.insert(item(1, 4));
    index.insert(item(2, 4));
    index.insert(item(1, 5));
    assert_eq!((index.len(), index.total_bytes()), (2, 9));
    assert_eq!(index.pop_lru().map(|it| it.key), Some(2));
}

#[test]
fn a_directory_is_taken_over() {
    let mut index = DiskCacheIndex::new("/c");
    let listed = |key: u64, meta: Option<&str>, len: Option<u64>| Listed {
        key,
        meta: meta.map(|m| m.as_bytes().to_vec()),
        data_len: len,
    };
    let listing = vec![
        listed(1, Some("expires_at=50\nlast_access=9\nsize=4\n"), Some(4)),
        listed(2, Some("expires_at=50\nlast_access=3\nsize=0\n"), Some(6)),
        listed(3, Some("expires_at=5\n"), Some(1)),
        listed(4, None, Some(1)),
        listed(5, Some("expires_at=50\n"), None),
        listed(6, Some("expires_at=50\nsize=99\n"), Some(99)),
    ];
    let stale = index.load(&listing, 10, settings(50, 0, 0));
    assert_eq!(stale, vec![3, 4, 5, 6]);
    assert!(index.loaded());
    assert_eq!((index.len(), index.total_bytes()), (2, 10));
    assert_eq!(index.pop_lru().map(|i| i.key), Some(2));
    let m = cache_metrics_snapshot(&MemoryCache::new(), Some(&index), 0, 0);
    assert_eq!((m.disk_entries, m.disk_bytes), (1, 4));
}
