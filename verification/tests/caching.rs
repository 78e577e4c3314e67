use migux::migux_cache::{
    CacheKey, CacheManager, CachePolicy, MemoryCacheStore, Request, Response, DEFAULT_TTL_NANOS,
};

fn request(method: &str, path: &str) -> Request {
    Request { method: method.to_string(), path: path.to_string() }
}

fn response(body: &str) -> Response {
    Response {
        status: 200,
        headers: vec![("content-type".to_string(), b"text/plain".to_vec())],
        body: body.as_bytes().to_vec(),
    }
}

#[test]
fn a_stored_response_is_served_until_it_expires() {
    let mut cache = CacheManager::new();
    let rq = request("GET", "/a");
    assert!(cache.try_get(&rq, 0).is_none());
    cache.store(&rq, &response("one"), 100);
    let hit = cache.try_get(&rq, 100 + DEFAULT_TTL_NANOS).expect("hit");
    assert_eq!(hit.status, 200);
    assert_eq!(hit.body, b"one");
    assert_eq!(hit.headers, vec![("content-type".to_string(), b"text/plain".to_vec())]);
    assert!(cache.try_get(&rq, 101 + DEFAULT_TTL_NANOS).is_none());
    assert!(cache.try_get(&request("HEAD", "/a"), 100).is_none());
    assert!(cache.try_get(&request("GET", "/b"), 100).is_none());
}

#[test]
fn a_later_response_takes_the_place_of_an_earlier_one() {
    let mut cache = CacheManager::new();
    cache.store_raw("HEAD", "/a", 200, Vec::new(), b"old".to_vec(), 0);
    cache.store_raw("HEAD", "/b", 200, Vec::new(), b"other".to_vec(), 0);
    cache.store_raw("HEAD", "/a", 404, Vec::new(), b"new".to_vec(), 1);
    assert_eq!(cache.try_get_raw("HEAD", "/a", 1).expect("hit").body, b"new");
    assert_eq!(cache.try_get_raw("HEAD", "/b", 1).expect("hit").body, b"other");
}

#[test]
fn other_methods_are_not_served() {
    let mut cache = CacheManager::new();
    cache.store(&request("POST", "/a"), &response("x"), 0);
    assert!(cache.try_get(&request("POST", "/a"), 0).is_none());
    assert!(CachePolicy::is_cacheable("GET"));
    assert!(CachePolicy::is_cacheable("HEAD"));
    assert!(!CachePolicy::is_cacheable("get"));
    assert_eq!(CachePolicy::default_ttl(), 30_000_000_000);
}

#[test]
fn stores_find_by_method_and_path() {
    let store = MemoryCacheStore::new();
    assert!(store.get(&CacheKey::new("GET", "/")).is_none());
    assert!(CacheKey::new("GET", "/").same(&CacheKey::new("GET", "/")));
    assert!(!CacheKey::new("GET", "/").same(&CacheKey::new("HEAD", "/")));
}
