//! The cache of responses in memory, its keys, and the counters of both caches.
use crate::buffer::copy_bytes;
use crate::migux_config::{HttpConfig, LocationConfig};
use crate::migux_static::index::{DiskCacheIndex, IndexView};
use crate::text::same_str;
use std::collections::hash_map::DefaultHasher;
use std::collections::HashMap;
use std::hash::Hasher;
use vstd::bytes::*;
use vstd::prelude::*;
use vstd::std_specs::hash::DefaultHasherAdditionalSpecFns;
use vstd::utf8::*;

verus! {

broadcast use vstd::std_specs::hash::group_hash_axioms;

/// The pieces that a cache key is hashed from.
pub open spec fn key_pieces(path: Seq<char>, len: u64, mtime_nanos: u128, hsts: bool) -> Seq<
    Seq<u8>,
> {
    seq![
        encode_utf8(path),
        seq![0xffu8],
        spec_u64_to_le_bytes(len),
        spec_u128_to_le_bytes(mtime_nanos),
        seq![if hsts { 1u8 } else { 0u8 }],
    ]
}

/// The cache key of a response.
pub open spec fn key_of(path: Seq<char>, len: u64, mtime_nanos: u128, hsts: bool) -> u64 {
    DefaultHasher::spec_finish(key_pieces(path, len, mtime_nanos, hsts))
}

/// Builds the cache key of a file's response from the attributes of the file.
pub fn build_cache_key(path: &str, len: u64, mtime_nanos: u128, hsts: bool) -> (r: u64)
    ensures
        r == key_of(path@, len, mtime_nanos, hsts),
{
    let mut hasher = DefaultHasher::new();
    hasher.write(path.as_bytes());
    let end: [u8; 1] = [0xff];
    hasher.write(&end);
    let len_bytes = u64_to_le_bytes(len);
    hasher.write(len_bytes.as_slice());
    let time_bytes = u128_to_le_bytes(mtime_nanos);
    hasher.write(time_bytes.as_slice());
    let flag: [u8; 1] = [if hsts { 1u8 } else { 0u8 }];
    hasher.write(&flag);
    assert(end@ =~= seq![0xffu8]);
    assert(flag@ =~= seq![if hsts { 1u8 } else { 0u8 }]);
    assert(hasher@ =~= key_pieces(path@, len, mtime_nanos, hsts));
    hasher.finish()
}

/// The end of the given number of seconds from now, in nanoseconds.
pub open spec fn expiry(now: u64, ttl_secs: u64) -> u128 {
    (now + ttl_secs * 1_000_000_000) as u128
}

/// What a cache in memory holds and has counted.
#[verifier::ext_equal]
pub struct MemoryView {
    /// The responses with the ends of their lives.
    pub held: Map<u64, (Seq<u8>, u128)>,
    /// How often a response was found.
    pub hits: u64,
    /// How often none was found.
    pub misses: u64,
}

/// The response that is found under a key.
pub open spec fn fresh(v: MemoryView, key: u64, now: u64) -> Option<Seq<u8>> {
    if v.held.dom().contains(key) && now <= v.held[key].1 {
        Some(v.held[key].0)
    } else {
        None
    }
}

/// The cache after a response was looked for: one whose life is over leaves.
pub open spec fn after_get(v: MemoryView, key: u64, now: u64) -> MemoryView {
    if fresh(v, key, now) is Some {
        MemoryView { hits: v.hits.wrapping_add(1), ..v }
    } else {
        MemoryView { held: v.held.remove(key), misses: v.misses.wrapping_add(1), ..v }
    }
}

/// The cache after a response was stored. Without a life nothing is stored.
pub open spec fn after_put(
    v: MemoryView,
    key: u64,
    response: Seq<u8>,
    ttl_secs: u64,
    now: u64,
) -> MemoryView {
    if ttl_secs == 0 {
        v
    } else {
        MemoryView { held: v.held.insert(key, (response, expiry(now, ttl_secs))), ..v }
    }
}

/// A response with the end of its life.
pub struct CacheEntry {
    /// The response.
    pub response: Vec<u8>,
    /// The end of its life, in nanoseconds.
    pub expires_at: u128,
}

/// The cache of responses in memory.
pub struct MemoryCache {
    entries: HashMap<u64, CacheEntry>,
    hits: u64,
    misses: u64,
}

impl View for MemoryCache {
    type V = MemoryView;

    closed spec fn view(&self) -> MemoryView {
        MemoryView {
            held: self.entries@.map_values(|e: CacheEntry| (e.response@, e.expires_at)),
            hits: self.hits,
            misses: self.misses,
        }
    }
}

impl MemoryCache {
    /// An empty cache.
    pub fn new() -> (r: Self)
        ensures
            r@ == (MemoryView { held: Map::empty(), hits: 0, misses: 0 }),
    {
        let r = MemoryCache { entries: HashMap::new(), hits: 0, misses: 0 };
        assert(r@.held =~= Map::empty());
        r
    }

    /// Looks for a response. One whose life is over is not found, and leaves.
    pub fn get(&mut self, key: u64, now: u64) -> (r: Option<Vec<u8>>)
        ensures
            r.deep_view() == fresh(old(self)@, key, now),
            final(self)@ == after_get(old(self)@, key, now),
    {
        let found = match self.entries.get(&key) {
            Some(e) => if now as u128 <= e.expires_at {
                Some(copy_bytes(e.response.as_slice()))
            } else {
                None
            },
            None => None,
        };
        match found {
            Some(response) => {
                self.hits = self.hits.wrapping_add(1);
                assert(response.deep_view() =~= response@);
                Some(response)
            },
            None => {
                self.entries.remove(&key);
                self.misses = self.misses.wrapping_add(1);
                assert(self@.held =~= old(self)@.held.remove(key));
                None
            },
        }
    }

    /// Stores a response for a number of seconds.
    pub fn put(&mut self, key: u64, response: Vec<u8>, ttl_secs: u64, now: u64)
        ensures
            final(self)@ == after_put(old(self)@, key, response@, ttl_secs, now),
    {
        if ttl_secs == 0 {
            return;
        }
        let expires_at: u128 = now as u128 + ttl_secs as u128 * 1_000_000_000;
        self.entries.insert(key, CacheEntry { response, expires_at });
        assert(self@.held =~= old(self)@.held.insert(key, (response@, expiry(now, ttl_secs))));
    }

    /// How often a response was found.
    pub fn hits(&self) -> (r: u64)
        ensures
            r == self@.hits,
    {
        self.hits
    }

    /// How often none was found.
    pub fn misses(&self) -> (r: u64)
        ensures
            r == self@.misses,
    {
        self.misses
    }
}

/// A stored response is found until its life is over, and not after that.
pub proof fn stored_response_is_found(
    v: MemoryView,
    key: u64,
    response: Seq<u8>,
    ttl_secs: u64,
    stored: u64,
    now: u64,
)
    requires
        ttl_secs > 0,
    ensures
        fresh(after_put(v, key, response, ttl_secs, stored), key, now) == (if now <= stored
            + ttl_secs * 1_000_000_000 {
            Some(response)
        } else {
            None
        }),
{
}

/// Looking for one response changes nothing for another.
pub proof fn other_responses_stay(v: MemoryView, key: u64, other: u64, now: u64, later: u64)
    requires
        key != other,
    ensures
        fresh(after_get(v, key, now), other, later) == fresh(v, other, later),
{
}

/// Counters of both caches.
#[derive(Debug, Clone, Copy, PartialEq, Eq, Structural)]
pub struct CacheMetrics {
    /// How often a response was found in memory.
    pub memory_hits: u64,
    /// How often none was found in memory.
    pub memory_misses: u64,
    /// How often a response was found on disk.
    pub disk_hits: u64,
    /// How often none was found on disk.
    pub disk_misses: u64,
    /// How many objects were evicted from the disk.
    pub disk_evictions: u64,
    /// How many bytes were evicted from the disk.
    pub disk_evicted_bytes: u64,
    /// How many bytes the objects on disk have.
    pub disk_bytes: u64,
    /// How many objects are on disk.
    pub disk_entries: u64,
}

/// The counters that the caches show: without an index of the disk, none of
/// its objects is counted.
pub open spec fn metrics_of(
    memory: MemoryView,
    index: Option<IndexView>,
    disk_hits: u64,
    disk_misses: u64,
) -> CacheMetrics {
    CacheMetrics {
        memory_hits: memory.hits,
        memory_misses: memory.misses,
        disk_hits,
        disk_misses,
        disk_evictions: match index {
            Some(i) => i.evictions,
            None => 0,
        },
        disk_evicted_bytes: match index {
            Some(i) => i.evicted_bytes,
            None => 0,
        },
        disk_bytes: match index {
            Some(i) => i.total_bytes,
            None => 0,
        },
        disk_entries: match index {
            Some(i) => i.items.len() as u64,
            None => 0,
        },
    }
}

/// Reads the counters of both caches.
pub fn cache_metrics_snapshot(
    memory: &MemoryCache,
    index: Option<&DiskCacheIndex>,
    disk_hits: u64,
    disk_misses: u64,
) -> (r: CacheMetrics)
    requires
        index matches Some(i) ==> i.wf(),
    ensures
        r == metrics_of(
            memory@,
            match index {
                Some(i) => Some(i@),
                None => None,
            },
            disk_hits,
            disk_misses,
        ),
{
    let memory_hits: u64 = memory.hits();
    let memory_misses: u64 = memory.misses();
    match index {
        Some(i) => CacheMetrics {
            memory_hits,
            memory_misses,
            disk_hits,
            disk_misses,
            disk_evictions: i.evictions(),
            disk_evicted_bytes: i.evicted_bytes(),
            disk_bytes: i.total_bytes(),
            disk_entries: i.len() as u64,
        },
        None => CacheMetrics {
            memory_hits,
            memory_misses,
            disk_hits,
            disk_misses,
            disk_evictions: 0,
            disk_evicted_bytes: 0,
            disk_bytes: 0,
            disk_entries: 0,
        },
    }
}

/// Which responses are cached.
pub struct CachePolicy;

/// Whether the responses of a location to a method are cached.
pub open spec fn cached(
    cache_dir: Option<Seq<char>>,
    location_cache: Option<bool>,
    method: Seq<char>,
) -> bool {
    method == "GET"@ && cache_dir is Some && location_cache != Some(false)
}

impl CachePolicy {
    /// Whether the responses of a location to a method are cached.
    pub fn enabled(http_cfg: &HttpConfig, location: &LocationConfig, method: &str) -> (r: bool)
        ensures
            r == cached(http_cfg.cache_dir.deep_view(), location.cache, method@),
    {
        if !same_str(method, "GET") {
            return false;
        }
        if http_cfg.cache_dir().is_none() {
            return false;
        }
        match location.cache() {
            Some(on) => on,
            None => true,
        }
    }
}

/// The key of a response is made of the path, the size and the time of the last
/// change of its file, and of whether a transport policy is announced: where one
/// of them differs, it is made of other pieces.
pub proof fn keys_are_made_of_all(
    path: Seq<char>,
    len: u64,
    nanos: u128,
    hsts: bool,
    other_path: Seq<char>,
    other_len: u64,
    other_nanos: u128,
    other_hsts: bool,
)
    requires
        key_pieces(path, len, nanos, hsts) == key_pieces(
            other_path,
            other_len,
            other_nanos,
            other_hsts,
        ),
    ensures
        path == other_path,
        len == other_len,
        nanos == other_nanos,
        hsts == other_hsts,
{
    let a = key_pieces(path, len, nanos, hsts);
    let b = key_pieces(other_path, other_len, other_nanos, other_hsts);
    assert(a[0] == b[0] && a[2] == b[2] && a[3] == b[3] && a[4] == b[4]);
    lemma_auto_spec_u64_to_from_le_bytes();
    lemma_auto_spec_u128_to_from_le_bytes();
    assert(spec_u64_from_le_bytes(a[2]) == spec_u64_from_le_bytes(b[2]));
    assert(spec_u128_to_le_bytes(nanos).len() == spec_u128_to_le_bytes(other_nanos).len());
    assert(spec_u128_from_le_bytes(a[3]) == spec_u128_from_le_bytes(b[3]));
    assert(a[4][0] == b[4][0]);
    encode_utf8_decode_utf8(path);
    encode_utf8_decode_utf8(other_path);
}

/// Each search counts once, as a hit or as a miss. A hit leaves what the cache
/// holds; a miss takes away what was held under the key, and nothing else.
pub proof fn searches_are_counted(v: MemoryView, key: u64, now: u64)
    ensures
        fresh(v, key, now) is Some ==> after_get(v, key, now).hits == v.hits.wrapping_add(1)
            && after_get(v, key, now).misses == v.misses && after_get(v, key, now).held == v.held,
        fresh(v, key, now) is None ==> after_get(v, key, now).misses == v.misses.wrapping_add(1)
            && after_get(v, key, now).hits == v.hits && after_get(v, key, now).held == v.held.remove(
            key,
        ),
        !v.held.dom().contains(key) ==> fresh(v, key, now) is None,
{
}

/// Storing counts no search, and changes nothing under another key. Without a life
/// nothing is stored.
pub proof fn storing_changes_one_key(
    v: MemoryView,
    key: u64,
    other: u64,
    response: Seq<u8>,
    ttl_secs: u64,
    stored: u64,
    now: u64,
)
    ensures
        other != key ==> fresh(after_put(v, key, response, ttl_secs, stored), other, now) == fresh(
            v,
            other,
            now,
        ),
        after_put(v, key, response, 0, stored) == v,
        after_put(v, key, response, ttl_secs, stored).hits == v.hits,
        after_put(v, key, response, ttl_secs, stored).misses == v.misses,
{
}

/// Responses to GET alone are cached, where a directory is set and the location
/// does not turn it off.
pub proof fn answers_to_get_are_cached(dir: Seq<char>, choice: Option<bool>, method: Seq<char>)
    ensures
        cached(Some(dir), None, "GET"@),
        cached(Some(dir), Some(true), "GET"@),
        !cached(Some(dir), Some(false), method),
        !cached(None, choice, method),
        method != seq!['G', 'E', 'T'] ==> !cached(Some(dir), choice, method),
{
    reveal_strlit("GET");
    assert("GET"@ =~= seq!['G', 'E', 'T']);
}

/// The counters that are shown are those of the caches.
pub proof fn counters_are_shown(memory: MemoryView, index: IndexView, hits: u64, misses: u64)
    requires
        index.items.len() <= u64::MAX,
    ensures
        ({
            let shown = metrics_of(memory, Some(index), hits, misses);
            &&& shown.memory_hits == memory.hits
            &&& shown.memory_misses == memory.misses
            &&& shown.disk_hits == hits
            &&& shown.disk_misses == misses
            &&& shown.disk_evictions == index.evictions
            &&& shown.disk_evicted_bytes == index.evicted_bytes
            &&& shown.disk_bytes == index.total_bytes
            &&& shown.disk_entries == index.items.len()
        }),
        ({
            let shown = metrics_of(memory, None, hits, misses);
            &&& shown.memory_hits == memory.hits
            &&& shown.memory_misses == memory.misses
            &&& shown.disk_hits == hits
            &&& shown.disk_misses == misses
            &&& shown.disk_evictions == 0
            &&& shown.disk_evicted_bytes == 0
            &&& shown.disk_bytes == 0
            &&& shown.disk_entries == 0
        }),
{
}

} // verus!
