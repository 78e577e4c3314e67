//! A cache of responses by method and path.
use crate::buffer::copy_bytes;
use crate::named;
use crate::text::{copy_str, same_str};
use crate::wire::{self, copy_fields};
use vstd::prelude::*;

verus! {

/// How long a response lives, in nanoseconds, unless said otherwise.
pub const DEFAULT_TTL_NANOS: u64 = 30_000_000_000;

/// A cached response.
#[derive(Debug)]
pub struct CacheEntry {
    /// The status.
    pub status: u16,
    /// The header fields.
    pub headers: Vec<(String, Vec<u8>)>,
    /// The body.
    pub body: Vec<u8>,
    /// When it was stored, in nanoseconds.
    pub created_at: u64,
    /// How long it lives, in nanoseconds.
    pub ttl: u64,
}

/// What a cached response holds.
#[verifier::ext_equal]
pub struct EntryView {
    pub status: u16,
    pub headers: Seq<(Seq<char>, Seq<u8>)>,
    pub body: Seq<u8>,
    pub created_at: u64,
    pub ttl: u64,
}

impl DeepView for CacheEntry {
    type V = EntryView;

    open spec fn deep_view(&self) -> EntryView {
        EntryView {
            status: self.status,
            headers: wire::field_views(self.headers@),
            body: self.body@,
            created_at: self.created_at,
            ttl: self.ttl,
        }
    }
}

/// Whether the life of a response is over.
pub open spec fn expired(e: EntryView, now: u64) -> bool {
    now - e.created_at > e.ttl
}

impl CacheEntry {
    /// Whether the life of the response is over.
    pub fn is_expired(&self, now: u64) -> (r: bool)
        ensures
            r == expired(self.deep_view(), now),
    {
        now > self.created_at && now - self.created_at > self.ttl
    }

    /// Another copy of the response.
    pub fn copy(&self) -> (r: Self)
        ensures
            r.deep_view() == self.deep_view(),
    {
        CacheEntry {
            status: self.status,
            headers: copy_fields(&self.headers),
            body: copy_bytes(self.body.as_slice()),
            created_at: self.created_at,
            ttl: self.ttl,
        }
    }
}

/// What a response is kept under.
#[derive(Debug)]
pub struct CacheKey {
    /// The method.
    pub method: String,
    /// The path.
    pub uri: String,
}

impl DeepView for CacheKey {
    type V = (Seq<char>, Seq<char>);

    open spec fn deep_view(&self) -> (Seq<char>, Seq<char>) {
        (self.method@, self.uri@)
    }
}

impl CacheKey {
    /// The key of a method and a path.
    pub fn new(method: &str, uri: &str) -> (r: Self)
        ensures
            r.deep_view() == (method@, uri@),
    {
        CacheKey { method: copy_str(method), uri: copy_str(uri) }
    }

    /// Whether two keys are the same.
    pub fn same(&self, other: &CacheKey) -> (r: bool)
        ensures
            r == (self.deep_view() == other.deep_view()),
    {
        same_str(self.method.as_str(), other.method.as_str()) && same_str(
            self.uri.as_str(),
            other.uri.as_str(),
        )
    }
}

/// Which responses are served out of the cache, and for how long.
pub struct CachePolicy;

/// Whether the responses to a method are served out of the cache.
pub open spec fn cacheable(method: Seq<char>) -> bool {
    method == "GET"@ || method == "HEAD"@
}

impl CachePolicy {
    /// Whether the responses to a method are served out of the cache.
    pub fn is_cacheable(method: &str) -> (r: bool)
        ensures
            r == cacheable(method@),
    {
        same_str(method, "GET") || same_str(method, "HEAD")
    }

    /// How long a response lives, in nanoseconds.
    pub fn default_ttl() -> (r: u64)
        ensures
            r == DEFAULT_TTL_NANOS,
    {
        DEFAULT_TTL_NANOS
    }
}

/// Responses by key.
pub type StoreView = Seq<((Seq<char>, Seq<char>), EntryView)>;

/// A store of responses in memory.
pub struct MemoryCacheStore {
    entries: Vec<(CacheKey, CacheEntry)>,
}

impl View for MemoryCacheStore {
    type V = StoreView;

    closed spec fn view(&self) -> StoreView {
        self.entries@.map_values(
            |p: (CacheKey, CacheEntry)| (p.0.deep_view(), p.1.deep_view()),
        )
    }
}

impl MemoryCacheStore {
    /// An empty store.
    pub fn new() -> (r: Self)
        ensures
            r@ == StoreView::empty(),
    {
        let r = MemoryCacheStore { entries: Vec::new() };
        assert(r@ =~= Seq::empty());
        r
    }

    /// The place of a key, or the number of entries if the key is not there.
    fn position(&self, key: &CacheKey) -> (r: usize)
        ensures
            r <= self.entries@.len(),
            r < self.entries@.len() ==> self@[r as int].0 == key.deep_view(),
            forall|k: int| 0 <= k < r ==> (#[trigger] self@[k]).0 != key.deep_view(),
    {
        let mut i: usize = 0;
        while i < self.entries.len()
            invariant
                i <= self.entries@.len(),
                forall|k: int| 0 <= k < i ==> (#[trigger] self@[k]).0 != key.deep_view(),
            decreases self.entries@.len() - i,
        {
            assert(self@[i as int].0 == self.entries@[i as int].0.deep_view());
            if self.entries[i].0.same(key) {
                return i;
            }
            i += 1;
        }
        i
    }

    /// The response under a key.
    pub fn get(&self, key: &CacheKey) -> (r: Option<CacheEntry>)
        ensures
            r.deep_view() == named::find(self@, key.deep_view()),
    {
        let i = self.position(key);
        proof {
            named::lemma_find(self@, key.deep_view(), i as int);
        }
        if i < self.entries.len() {
            assert(self@[i as int].1 == self.entries@[i as int].1.deep_view());
            Some(self.entries[i].1.copy())
        } else {
            None
        }
    }

    /// Stores a response under a key, in the place of one that is there.
    pub fn insert(&mut self, key: CacheKey, entry: CacheEntry)
        ensures
            final(self)@ == named::with_value(old(self)@, key.deep_view(), entry.deep_view()),
    {
        let i = self.position(&key);
        proof {
            named::lemma_with_value(self@, key.deep_view(), entry.deep_view(), i as int);
        }
        if i < self.entries.len() {
            self.entries.set(i, (key, entry));
        } else {
            self.entries.push((key, entry));
        }
        assert(self@ =~= named::with_value(old(self)@, key.deep_view(), entry.deep_view()));
    }
}

/// What the cache reads of a request.
#[derive(Debug)]
pub struct Request {
    /// The method.
    pub method: String,
    /// The path.
    pub path: String,
}

/// What the cache keeps of a response.
#[derive(Debug)]
pub struct Response {
    /// The status.
    pub status: u16,
    /// The header fields.
    pub headers: Vec<(String, Vec<u8>)>,
    /// The body.
    pub body: Vec<u8>,
}

/// The response that the cache has for a request at a time.
pub open spec fn served(
    store: StoreView,
    method: Seq<char>,
    path: Seq<char>,
    now: u64,
) -> Option<EntryView> {
    if cacheable(method) {
        match named::find(store, (method, path)) {
            Some(e) => if expired(e, now) {
                None
            } else {
                Some(e)
            },
            None => None,
        }
    } else {
        None
    }
}

/// What is kept of a response that came at a time.
pub open spec fn entry_of(
    status: u16,
    headers: Seq<(Seq<char>, Seq<u8>)>,
    body: Seq<u8>,
    now: u64,
) -> EntryView {
    EntryView { status, headers, body, created_at: now, ttl: DEFAULT_TTL_NANOS }
}

/// The store after a response to a request came.
pub open spec fn stored(
    store: StoreView,
    method: Seq<char>,
    path: Seq<char>,
    entry: EntryView,
) -> StoreView {
    named::with_value(store, (method, path), entry)
}

/// A cache of responses.
pub struct CacheManager {
    store: MemoryCacheStore,
}

impl View for CacheManager {
    type V = StoreView;

    closed spec fn view(&self) -> StoreView {
        self.store@
    }
}

impl CacheManager {
    /// A cache that holds nothing.
    pub fn new() -> (r: Self)
        ensures
            r@ == StoreView::empty(),
    {
        CacheManager { store: MemoryCacheStore::new() }
    }

    /// The response that the cache has for a request.
    pub fn try_get(&self, req: &Request, now: u64) -> (r: Option<CacheEntry>)
        ensures
            r.deep_view() == served(self@, req.method@, req.path@, now),
    {
        self.try_get_raw(req.method.as_str(), req.path.as_str(), now)
    }

    /// Stores the response to a request.
    pub fn store(&mut self, req: &Request, res: &Response, now: u64)
        ensures
            final(self)@ == stored(
                old(self)@,
                req.method@,
                req.path@,
                entry_of(res.status, wire::field_views(res.headers@), res.body@, now),
            ),
    {
        self.store_raw(
            req.method.as_str(),
            req.path.as_str(),
            res.status,
            copy_fields(&res.headers),
            copy_bytes(res.body.as_slice()),
            now,
        );
    }

    /// The response that the cache has for a method and a path.
    pub fn try_get_raw(&self, method: &str, path: &str, now: u64) -> (r: Option<CacheEntry>)
        ensures
            r.deep_view() == served(self@, method@, path@, now),
    {
        if !CachePolicy::is_cacheable(method) {
            return None;
        }
        match self.store.get(&CacheKey::new(method, path)) {
            Some(entry) => if entry.is_expired(now) {
                None
            } else {
                Some(entry)
            },
            None => None,
        }
    }

    /// Stores the response to a method and a path.
    pub fn store_raw(
        &mut self,
        method: &str,
        path: &str,
        status: u16,
        headers: Vec<(String, Vec<u8>)>,
        body: Vec<u8>,
        now: u64,
    )
        ensures
            final(self)@ == stored(
                old(self)@,
                method@,
                path@,
                entry_of(status, wire::field_views(headers@), body@, now),
            ),
    {
        let entry = CacheEntry {
            status,
            headers,
            body,
            created_at: now,
            ttl: CachePolicy::default_ttl(),
        };
        assert(entry.deep_view() =~= entry_of(status, wire::field_views(headers@), body@, now));
        self.store.insert(CacheKey::new(method, path), entry);
    }
}

/// A stored response to a cacheable method is served until its life is over,
/// and not after that.
pub proof fn stored_response_is_served(
    store: StoreView,
    method: Seq<char>,
    path: Seq<char>,
    status: u16,
    headers: Seq<(Seq<char>, Seq<u8>)>,
    body: Seq<u8>,
    before: u64,
    now: u64,
)
    requires
        cacheable(method),
    ensures
        served(
            stored(store, method, path, entry_of(status, headers, body, before)),
            method,
            path,
            now,
        ) == (if now - before <= DEFAULT_TTL_NANOS {
            Some(entry_of(status, headers, body, before))
        } else {
            None
        }),
{
    named::put_is_found(store, (method, path), entry_of(status, headers, body, before), (method, path));
}

/// Storing one response changes nothing for another request.
pub proof fn other_requests_stay(
    store: StoreView,
    method: Seq<char>,
    path: Seq<char>,
    entry: EntryView,
    other_method: Seq<char>,
    other_path: Seq<char>,
    now: u64,
)
    requires
        (method, path) != (other_method, other_path),
    ensures
        served(stored(store, method, path, entry), other_method, other_path, now) == served(
            store,
            other_method,
            other_path,
            now,
        ),
{
    named::put_is_found(store, (method, path), entry, (other_method, other_path));
}

/// A response to GET or HEAD that was stored is served for thirty seconds, with
/// its status, its fields and its body. Responses to other methods are not served.
pub proof fn responses_live_for_thirty_seconds(
    store: StoreView,
    method: Seq<char>,
    path: Seq<char>,
    status: u16,
    headers: Seq<(Seq<char>, Seq<u8>)>,
    body: Seq<u8>,
    before: u64,
    now: u64,
)
    ensures
        ({
            let found = served(
                stored(store, method, path, entry_of(status, headers, body, before)),
                method,
                path,
                now,
            );
            &&& method == "GET"@ || method == "HEAD"@ ==> (found is Some) == (now <= before
                + 30_000_000_000)
            &&& method != "GET"@ && method != "HEAD"@ ==> found is None
            &&& found is Some ==> found->0.status == status && found->0.headers == headers
                && found->0.body == body
        }),
{
    named::put_is_found(store, (method, path), entry_of(status, headers, body, before), (method, path));
}

} // verus!
