//! The index of the disk cache.
//!
//! The index knows the objects in the cache directory and the order in which
//! they were last used. It decides which of them leave the cache.
use crate::migux_config::http::HttpConfig;
use crate::text::copy_str;
use std::collections::HashMap;
use vstd::prelude::*;

verus! {

broadcast use vstd::std_specs::hash::group_hash_axioms;

/// What the index knows of a cached object. The links lead to the objects
/// used just before and just after it.
#[derive(Clone, Copy, Debug, PartialEq, Eq, Structural)]
pub struct DiskEntryMeta {
    pub size: u64,
    pub expires_at: u64,
    pub last_access: u64,
    prev: Option<u64>,
    next: Option<u64>,
}

/// What is written down of a cached object beside its data.
#[derive(Clone, Copy, Debug, PartialEq, Eq, Structural)]
pub struct DiskMetaRecord {
    pub expires_at: u64,
    pub last_access: u64,
    pub size: u64,
}

/// A cached object: its key and what is known of it.
#[derive(Clone, Copy, Debug, PartialEq, Eq, Structural)]
pub struct Item {
    pub key: u64,
    pub size: u64,
    pub expires_at: u64,
    pub last_access: u64,
}

/// The limits of the disk cache; zero is none.
#[derive(Clone, Copy, Debug, PartialEq, Eq, Structural)]
pub struct CacheSettings {
    pub max_total_bytes: u64,
    pub max_entries: usize,
    pub inactive_secs: u64,
}

/// Whether the cache exceeds its limits.
pub open spec fn exceeds(s: CacheSettings, total_bytes: int, entries: int) -> bool {
    ||| s.max_total_bytes > 0 && total_bytes > s.max_total_bytes
    ||| s.max_entries > 0 && entries > s.max_entries
}

impl CacheSettings {
    /// The limits that are configured.
    pub fn from(http_cfg: &HttpConfig) -> (r: Self)
        ensures
            r.max_total_bytes == (match http_cfg.cache_max_total_bytes {
                Some(n) => n,
                None => 0,
            }),
            r.max_entries == (match http_cfg.cache_max_entries {
                Some(n) => n,
                None => 0,
            }),
            r.inactive_secs == (match http_cfg.cache_inactive_secs {
                Some(n) => n,
                None => 0,
            }),
    {
        let max_total_bytes: u64 = match http_cfg.cache_max_total_bytes() {
            Some(n) => n,
            None => 0,
        };
        let max_entries: usize = match http_cfg.cache_max_entries() {
            Some(n) => n,
            None => 0,
        };
        let inactive_secs: u64 = match http_cfg.cache_inactive_secs() {
            Some(n) => n,
            None => 0,
        };
        CacheSettings { max_total_bytes, max_entries, inactive_secs }
    }

    /// Whether the cache exceeds its limits.
    pub fn exceeds_limits(&self, total_bytes: u64, entries: usize) -> (r: bool)
        ensures
            r == exceeds(*self, total_bytes as int, entries as int),
    {
        (self.max_total_bytes > 0 && total_bytes > self.max_total_bytes) || (self.max_entries > 0
            && entries > self.max_entries)
    }
}

// ---------------------------------------------------------------------------
// The model
// ---------------------------------------------------------------------------

/// The index as a sequence of objects, the one unused for longest first.
#[verifier::ext_equal]
pub struct IndexView {
    pub cache_dir: Seq<char>,
    pub items: Seq<Item>,
    pub total_bytes: u64,
    pub loaded: bool,
    pub evictions: u64,
    pub evicted_bytes: u64,
}

/// The object with a key.
pub open spec fn item_at(items: Seq<Item>, key: u64) -> Option<Item>
    decreases items.len(),
{
    if items.len() == 0 {
        None
    } else if items[0].key == key {
        Some(items[0])
    } else {
        item_at(items.drop_first(), key)
    }
}

/// The objects but for the one with a key.
pub open spec fn without(items: Seq<Item>, key: u64) -> Seq<Item>
    decreases items.len(),
{
    if items.len() == 0 {
        items
    } else if items[0].key == key {
        items.drop_first()
    } else {
        seq![items[0]] + without(items.drop_first(), key)
    }
}

/// Whether every key occurs once.
pub open spec fn keys_distinct(items: Seq<Item>) -> bool {
    forall|i: int, j: int|
        0 <= i < j < items.len() ==> (#[trigger] items[i]).key != (#[trigger] items[j]).key
}

/// The bytes of all objects.
pub open spec fn sum_of_sizes(items: Seq<Item>) -> nat
    decreases items.len(),
{
    if items.len() == 0 {
        0
    } else {
        sum_of_sizes(items.drop_last()) + items.last().size as nat
    }
}

/// The index after an object has left it.
pub open spec fn removed(v: IndexView, key: u64) -> IndexView {
    match item_at(v.items, key) {
        Some(it) => (IndexView {
            items: without(v.items, key),
            total_bytes: v.total_bytes.saturating_sub(it.size),
            ..v
        }),
        None => v,
    }
}

/// The index after an object has come into it, as the one used last.
pub open spec fn inserted(v: IndexView, it: Item) -> IndexView {
    let w = removed(v, it.key);
    IndexView {
        items: w.items.push(it),
        total_bytes: w.total_bytes.saturating_add(it.size),
        ..w
    }
}

/// The index after an object has been used.
pub open spec fn touched(v: IndexView, key: u64, now: u64) -> IndexView {
    match item_at(v.items, key) {
        Some(it) => (IndexView {
            items: without(v.items, key).push((Item { last_access: now, ..it })),
            ..v
        }),
        None => v,
    }
}

/// The index after the object unused for longest has been evicted.
pub open spec fn evicted_first(v: IndexView) -> IndexView {
    IndexView {
        items: v.items.drop_first(),
        total_bytes: v.total_bytes.saturating_sub(v.items[0].size),
        evictions: v.evictions.wrapping_add(1),
        evicted_bytes: v.evicted_bytes.wrapping_add(v.items[0].size),
        ..v
    }
}

/// The index after so many objects have been evicted that it keeps its limits
/// with `extra_bytes` and `extra_entries` more.
pub open spec fn evicted_to_limits(
    v: IndexView,
    s: CacheSettings,
    extra_bytes: u64,
    extra_entries: nat,
) -> IndexView
    decreases v.items.len(),
{
    if v.items.len() > 0 && exceeds(
        s,
        v.total_bytes.saturating_add(extra_bytes) as int,
        (v.items.len() + extra_entries) as int,
    ) {
        evicted_to_limits(evicted_first(v), s, extra_bytes, extra_entries)
    } else {
        v
    }
}

/// Whether an object has not been used for too long.
pub open spec fn inactive(it: Item, now: u64, inactive_secs: u64) -> bool {
    now - it.last_access > inactive_secs
}

/// The index after the objects unused for too long have been evicted, up to
/// the first that was used since.
pub open spec fn evicted_inactive(v: IndexView, now: u64, inactive_secs: u64) -> IndexView
    decreases v.items.len(),
{
    if inactive_secs > 0 && v.items.len() > 0 && inactive(v.items[0], now, inactive_secs) {
        evicted_inactive(evicted_first(v), now, inactive_secs)
    } else {
        v
    }
}

/// The keys of objects.
pub open spec fn keys_of(items: Seq<Item>) -> Seq<u64> {
    items.map_values(|it: Item| it.key)
}

// ---------------------------------------------------------------------------
// The linked list
// ---------------------------------------------------------------------------

/// What an entry says of its object.
spec fn item_of(key: u64, e: DiskEntryMeta) -> Item {
    Item { key, size: e.size, expires_at: e.expires_at, last_access: e.last_access }
}

/// The objects in the given order.
spec fn items_in(m: Map<u64, DiskEntryMeta>, order: Seq<u64>) -> Seq<Item> {
    Seq::new(order.len(), |i: int| item_of(order[i], m[order[i]]))
}

/// The key before position `i`.
spec fn key_before(order: Seq<u64>, i: int) -> Option<u64> {
    if i <= 0 {
        None
    } else {
        Some(order[i - 1])
    }
}

/// The key behind position `i`.
spec fn key_behind(order: Seq<u64>, i: int) -> Option<u64> {
    if i + 1 >= order.len() {
        None
    } else {
        Some(order[i + 1])
    }
}

/// Whether the entry at position `i` is linked to those around it.
spec fn linked_at(m: Map<u64, DiskEntryMeta>, order: Seq<u64>, i: int) -> bool {
    &&& m.contains_key(order[i])
    &&& m[order[i]].prev == key_before(order, i)
    &&& m[order[i]].next == key_behind(order, i)
}

/// Whether the entries are linked in the given order.
spec fn linked(
    m: Map<u64, DiskEntryMeta>,
    order: Seq<u64>,
    head: Option<u64>,
    tail: Option<u64>,
) -> bool {
    &&& forall|i: int, j: int| 0 <= i < j < order.len() ==> #[trigger] order[i] != #[trigger] order[j]
    &&& forall|i: int| 0 <= i < order.len() ==> #[trigger] linked_at(m, order, i)
    &&& head == key_behind(order, -1)
    &&& tail == key_before(order, order.len() as int)
}

/// Whether two maps say the same of every object.
spec fn same_data(a: Map<u64, DiskEntryMeta>, b: Map<u64, DiskEntryMeta>) -> bool {
    &&& a.dom() == b.dom()
    &&& forall|k: u64|
        #[trigger] a.contains_key(k) ==> a[k].size == b[k].size && a[k].expires_at
            == b[k].expires_at && a[k].last_access == b[k].last_access
}

/// The objects of the disk cache, in the order of their last use.
pub struct DiskCacheIndex {
    cache_dir: String,
    entries: HashMap<u64, DiskEntryMeta>,
    lru_head: Option<u64>,
    lru_tail: Option<u64>,
    total_bytes: u64,
    loaded: bool,
    evictions: u64,
    evicted_bytes: u64,
    order: Ghost<Seq<u64>>,
}

impl View for DiskCacheIndex {
    type V = IndexView;

    closed spec fn view(&self) -> IndexView {
        IndexView {
            cache_dir: self.cache_dir@,
            items: items_in(self.entries@, self.order@),
            total_bytes: self.total_bytes,
            loaded: self.loaded,
            evictions: self.evictions,
            evicted_bytes: self.evicted_bytes,
        }
    }
}

proof fn lemma_position(order: Seq<u64>, m: Map<u64, DiskEntryMeta>, key: u64, p: int)
    requires
        forall|i: int, j: int|
            0 <= i < j < order.len() ==> #[trigger] order[i] != #[trigger] order[j],
        0 <= p < order.len(),
        order[p] == key,
    ensures
        item_at(items_in(m, order), key) == Some(item_of(key, m[key])),
        without(items_in(m, order), key) == items_in(m, order.remove(p)),
    decreases order.len(),
{
    let items = items_in(m, order);
    assert(items[0] == item_of(order[0], m[order[0]]));
    if p == 0 {
        assert(items.drop_first() =~= items_in(m, order.remove(0)));
    } else {
        let rest = order.drop_first();
        assert(items.drop_first() =~= items_in(m, rest));
        assert forall|i: int, j: int| 0 <= i < j < rest.len() implies #[trigger] rest[i]
            != #[trigger] rest[j] by {
            assert(rest[i] == order[i + 1]);
            assert(rest[j] == order[j + 1]);
        }
        assert(rest[p - 1] == order[p]);
        lemma_position(rest, m, key, p - 1);
        assert(order[0] != order[p]);
        assert(seq![items[0]] + items_in(m, rest.remove(p - 1)) =~= items_in(m, order.remove(p)));
    }
}

proof fn lemma_absent(order: Seq<u64>, m: Map<u64, DiskEntryMeta>, key: u64)
    requires
        !order.contains(key),
    ensures
        item_at(items_in(m, order), key) is None,
        without(items_in(m, order), key) == items_in(m, order),
    decreases order.len(),
{
    let items = items_in(m, order);
    if order.len() > 0 {
        let rest = order.drop_first();
        assert(items[0] == item_of(order[0], m[order[0]]));
        assert(order.contains(order[0]));
        assert(items.drop_first() =~= items_in(m, rest));
        assert(!rest.contains(key)) by {
            if rest.contains(key) {
                let i = choose|i: int| 0 <= i < rest.len() && rest[i] == key;
                assert(order[i + 1] == key);
            }
        }
        lemma_absent(rest, m, key);
        assert(seq![items[0]] + items_in(m, rest) =~= items);
    }
}

proof fn lemma_taken_out(order: Seq<u64>, p: int)
    requires
        forall|i: int, j: int|
            0 <= i < j < order.len() ==> #[trigger] order[i] != #[trigger] order[j],
        0 <= p < order.len(),
    ensures
        !order.remove(p).contains(order[p]),
        forall|k: u64|
            k != order[p] && order.contains(k) ==> #[trigger] order.remove(p).contains(k),
{
    let rest = order.remove(p);
    assert forall|i: int| 0 <= i < rest.len() implies #[trigger] rest[i] != order[p] by {
        let a = if i < p {
            i
        } else {
            i + 1
        };
        assert(rest[i] == order[a]);
    }
    assert forall|k: u64| k != order[p] && order.contains(k) implies #[trigger] rest.contains(
        k,
    ) by {
        let a = choose|a: int| 0 <= a < order.len() && order[a] == k;
        if a < p {
            assert(rest[a] == k);
        } else {
            assert(rest[a - 1] == k);
        }
    }
}

/// The entries with an object taken out of the list: those before and behind it
/// are linked to each other.
spec fn unlinked(m: Map<u64, DiskEntryMeta>, key: u64) -> Map<u64, DiskEntryMeta> {
    let prev = m[key].prev;
    let next = m[key].next;
    let a = match prev {
        Some(k) => m.insert(k, (DiskEntryMeta { next, ..m[k] })),
        None => m,
    };
    match next {
        Some(k) => a.insert(k, (DiskEntryMeta { prev, ..a[k] })),
        None => a,
    }
}

#[verifier::spinoff_prover]
proof fn lemma_unlinked(
    m: Map<u64, DiskEntryMeta>,
    order: Seq<u64>,
    head: Option<u64>,
    tail: Option<u64>,
    p: int,
)
    requires
        linked(m, order, head, tail),
        0 <= p < order.len(),
    ensures
        ({
            let e = m[order[p]];
            linked(
                unlinked(m, order[p]),
                order.remove(p),
                if e.prev is None {
                    e.next
                } else {
                    head
                },
                if e.next is None {
                    e.prev
                } else {
                    tail
                },
            )
        }),
        same_data(m, unlinked(m, order[p])),
{
    let key = order[p];
    let rest = order.remove(p);
    let u = unlinked(m, key);
    assert(linked_at(m, order, p));
    if p > 0 {
        assert(linked_at(m, order, p - 1));
    }
    if p + 1 < order.len() {
        assert(linked_at(m, order, p + 1));
    }
    assert forall|i: int| 0 <= i < rest.len() implies #[trigger] rest[i] == order[old_place(
        i,
        p,
    )] by {}
    assert forall|i: int, j: int| 0 <= i < j < rest.len() implies #[trigger] rest[i]
        != #[trigger] rest[j] by {
        assert(order[old_place(i, p)] != order[old_place(j, p)]);
    }
    assert forall|i: int| 0 <= i < rest.len() implies #[trigger] linked_at(u, rest, i) by {
        let a = old_place(i, p);
        assert(rest[i] == order[a]);
        assert(linked_at(m, order, a));
        if p > 0 && a != p - 1 {
            assert(order[a] != order[p - 1]);
        }
        if p + 1 < order.len() && a != p + 1 {
            assert(order[a] != order[p + 1]);
        }
    }
    assert(m.dom() =~= u.dom());
}

/// The place that an object had before the one at `p` was taken out.
spec fn old_place(i: int, p: int) -> int {
    if i < p {
        i
    } else {
        i + 1
    }
}

/// Whether two maps agree on the given keys.
spec fn agree(a: Map<u64, DiskEntryMeta>, b: Map<u64, DiskEntryMeta>, order: Seq<u64>) -> bool {
    forall|i: int|
        0 <= i < order.len() ==> a.contains_key(#[trigger] order[i]) ==> b.contains_key(order[i])
            && a[order[i]] == b[order[i]]
}

proof fn lemma_linked_frame(
    a: Map<u64, DiskEntryMeta>,
    b: Map<u64, DiskEntryMeta>,
    order: Seq<u64>,
    head: Option<u64>,
    tail: Option<u64>,
)
    requires
        linked(a, order, head, tail),
        agree(a, b, order),
    ensures
        linked(b, order, head, tail),
{
    assert forall|i: int| 0 <= i < order.len() implies #[trigger] linked_at(b, order, i) by {
        assert(linked_at(a, order, i));
        assert(a.contains_key(order[i]));
    }
}

proof fn lemma_items_frame(
    a: Map<u64, DiskEntryMeta>,
    b: Map<u64, DiskEntryMeta>,
    order: Seq<u64>,
)
    requires
        forall|i: int|
            0 <= i < order.len() ==> item_of(#[trigger] order[i], a[order[i]]) == item_of(
                order[i],
                b[order[i]],
            ),
    ensures
        items_in(a, order) == items_in(b, order),
{
    assert(items_in(a, order) =~= items_in(b, order));
}

proof fn lemma_items_push(m: Map<u64, DiskEntryMeta>, order: Seq<u64>, key: u64)
    ensures
        items_in(m, order.push(key)) == items_in(m, order).push(item_of(key, m[key])),
{
    assert(items_in(m, order.push(key)) =~= items_in(m, order).push(item_of(key, m[key])));
}

impl DiskCacheIndex {
    /// Whether the index is in order.
    pub closed spec fn wf(&self) -> bool {
        &&& linked(self.entries@, self.order@, self.lru_head, self.lru_tail)
        &&& forall|k: u64| #[trigger] self.entries@.contains_key(k) ==> self.order@.contains(k)
    }

    /// An index that knows nothing of the directory yet.
    pub fn new(cache_dir: &str) -> (r: Self)
        ensures
            r.wf(),
            r@ == (IndexView {
                cache_dir: cache_dir@,
                items: Seq::empty(),
                total_bytes: 0,
                loaded: false,
                evictions: 0,
                evicted_bytes: 0,
            }),
    {
        let r = DiskCacheIndex {
            cache_dir: copy_str(cache_dir),
            entries: HashMap::new(),
            lru_head: None,
            lru_tail: None,
            total_bytes: 0,
            loaded: false,
            evictions: 0,
            evicted_bytes: 0,
            order: Ghost(Seq::empty()),
        };
        assert(r@.items =~= Seq::empty());
        r
    }

    /// Forgets everything and turns to another directory.
    pub fn reset(&mut self, cache_dir: &str)
        ensures
            final(self).wf(),
            final(self)@ == (IndexView {
                cache_dir: cache_dir@,
                items: Seq::empty(),
                total_bytes: 0,
                loaded: false,
                ..old(self)@
            }),
    {
        self.cache_dir = copy_str(cache_dir);
        self.entries.clear();
        self.lru_head = None;
        self.lru_tail = None;
        self.total_bytes = 0;
        self.loaded = false;
        proof {
            self.order@ = Seq::empty();
        }
        assert(self@.items =~= Seq::empty());
    }

    /// The directory that the index is about.
    pub fn cache_dir(&self) -> (r: &str)
        ensures
            r@ == self@.cache_dir,
    {
        self.cache_dir.as_str()
    }

    /// Whether the directory has been read.
    pub fn loaded(&self) -> (r: bool)
        ensures
            r == self@.loaded,
    {
        self.loaded
    }

    /// The bytes in the cache.
    pub fn total_bytes(&self) -> (r: u64)
        ensures
            r == self@.total_bytes,
    {
        self.total_bytes
    }

    /// How many objects have been evicted.
    pub fn evictions(&self) -> (r: u64)
        ensures
            r == self@.evictions,
    {
        self.evictions
    }

    /// The bytes of the objects that have been evicted.
    pub fn evicted_bytes(&self) -> (r: u64)
        ensures
            r == self@.evicted_bytes,
    {
        self.evicted_bytes
    }

    /// The number of objects in the cache.
    pub fn len(&self) -> (r: usize)
        requires
            self.wf(),
        ensures
            r == self@.items.len(),
    {
        proof {
            self.lemma_len();
        }
        self.entries.len()
    }

    proof fn lemma_len(&self)
        requires
            self.wf(),
        ensures
            self.entries@.dom().len() == self.order@.len(),
            self.entries@.dom().finite(),
    {
        let order = self.order@;
        assert(order.no_duplicates());
        order.unique_seq_to_set();
        assert(self.entries@.dom() =~= order.to_set()) by {
            assert forall|k: u64| self.entries@.dom().contains(k) implies order.to_set().contains(
                k,
            ) by {
                assert(self.entries@.contains_key(k));
            }
            assert forall|k: u64| order.to_set().contains(k) implies self.entries@.dom().contains(
                k,
            ) by {
                let i = choose|i: int| 0 <= i < order.len() && order[i] == k;
                assert(linked_at(self.entries@, order, i));
            }
        }
    }

    /// What the index knows of a key.
    pub fn get(&self, key: u64) -> (r: Option<Item>)
        requires
            self.wf(),
        ensures
            r == item_at(self@.items, key),
    {
        match self.entries.get(&key) {
            Some(e) => {
                proof {
                    let p = choose|p: int| 0 <= p < self.order@.len() && self.order@[p] == key;
                    assert(self.entries@.contains_key(key));
                    lemma_position(self.order@, self.entries@, key, p);
                }
                Some(
                    Item {
                        key,
                        size: e.size,
                        expires_at: e.expires_at,
                        last_access: e.last_access,
                    },
                )
            },
            None => {
                proof {
                    assert(!self.order@.contains(key)) by {
                        if self.order@.contains(key) {
                            let p = choose|p: int|
                                0 <= p < self.order@.len() && self.order@[p] == key;
                            assert(linked_at(self.entries@, self.order@, p));
                        }
                    }
                    lemma_absent(self.order@, self.entries@, key);
                }
                None
            },
        }
    }

    /// The entry with a key.
    fn entry(&self, key: u64) -> (r: Option<DiskEntryMeta>)
        ensures
            r == (if self.entries@.contains_key(key) {
                Some(self.entries@[key])
            } else {
                None
            }),
    {
        match self.entries.get(&key) {
            Some(e) => Some(*e),
            None => None,
        }
    }

    /// Sets the link to the object used after the one with the key.
    fn set_next(&mut self, key: u64, next: Option<u64>)
        requires
            old(self).entries@.contains_key(key),
        ensures
            final(self).entries@ == old(self).entries@.insert(
                key,
                (DiskEntryMeta { next, ..old(self).entries@[key] }),
            ),
            final(self).cache_dir == old(self).cache_dir,
            final(self).lru_head == old(self).lru_head,
            final(self).lru_tail == old(self).lru_tail,
            final(self).total_bytes == old(self).total_bytes,
            final(self).loaded == old(self).loaded,
            final(self).evictions == old(self).evictions,
            final(self).evicted_bytes == old(self).evicted_bytes,
            final(self).order == old(self).order,
    {
        let found = self.entry(key);
        match found {
            Some(mut e) => {
                e.next = next;
                self.entries.insert(key, e);
            },
            None => {},
        }
    }

    /// Sets the link to the object used before the one with the key.
    fn set_prev(&mut self, key: u64, prev: Option<u64>)
        requires
            old(self).entries@.contains_key(key),
        ensures
            final(self).entries@ == old(self).entries@.insert(
                key,
                (DiskEntryMeta { prev, ..old(self).entries@[key] }),
            ),
            final(self).cache_dir == old(self).cache_dir,
            final(self).lru_head == old(self).lru_head,
            final(self).lru_tail == old(self).lru_tail,
            final(self).total_bytes == old(self).total_bytes,
            final(self).loaded == old(self).loaded,
            final(self).evictions == old(self).evictions,
            final(self).evicted_bytes == old(self).evicted_bytes,
            final(self).order == old(self).order,
    {
        let found = self.entry(key);
        match found {
            Some(mut e) => {
                e.prev = prev;
                self.entries.insert(key, e);
            },
            None => {},
        }
    }

    /// Takes an object out of the list of last uses.
    fn detach(&mut self, key: u64)
        requires
            linked(
                old(self).entries@,
                old(self).order@,
                old(self).lru_head,
                old(self).lru_tail,
            ),
            old(self).order@.contains(key),
        ensures
            linked(
                final(self).entries@,
                final(self).order@,
                final(self).lru_head,
                final(self).lru_tail,
            ),
            exists|p: int|
                0 <= p < old(self).order@.len() && #[trigger] old(self).order@[p] == key
                    && final(self).order@ == old(self).order@.remove(p),
            same_data(old(self).entries@, final(self).entries@),
            final(self).cache_dir == old(self).cache_dir,
            final(self).total_bytes == old(self).total_bytes,
            final(self).loaded == old(self).loaded,
            final(self).evictions == old(self).evictions,
            final(self).evicted_bytes == old(self).evicted_bytes,
    {
        let ghost order = self.order@;
        let ghost m = self.entries@;
        let ghost p = choose|p: int| 0 <= p < order.len() && order[p] == key;
        assert(linked_at(m, order, p));
        let found = self.entry(key);
        let (prev, next) = match found {
            Some(e) => (e.prev, e.next),
            None => (None, None),
        };
        match prev {
            Some(prev_key) => {
                assert(linked_at(m, order, p - 1));
                self.set_next(prev_key, next);
            },
            None => {
                self.lru_head = next;
            },
        }
        match next {
            Some(next_key) => {
                assert(linked_at(m, order, p + 1));
                self.set_prev(next_key, prev);
            },
            None => {
                self.lru_tail = prev;
            },
        }
        proof {
            self.order@ = order.remove(p);
            assert(self.entries@ =~= unlinked(m, key));
            lemma_unlinked(m, order, old(self).lru_head, old(self).lru_tail, p);
        }
    }

    /// Puts an object at the end of the list of last uses.
    fn attach_to_tail(&mut self, key: u64)
        requires
            linked(
                old(self).entries@,
                old(self).order@,
                old(self).lru_head,
                old(self).lru_tail,
            ),
            !old(self).order@.contains(key),
            old(self).entries@.contains_key(key),
        ensures
            linked(
                final(self).entries@,
                final(self).order@,
                final(self).lru_head,
                final(self).lru_tail,
            ),
            final(self).order@ == old(self).order@.push(key),
            same_data(old(self).entries@, final(self).entries@),
            final(self).cache_dir == old(self).cache_dir,
            final(self).total_bytes == old(self).total_bytes,
            final(self).loaded == old(self).loaded,
            final(self).evictions == old(self).evictions,
            final(self).evicted_bytes == old(self).evicted_bytes,
    {
        let ghost order = self.order@;
        let ghost m = self.entries@;
        let tail = self.lru_tail;
        match tail {
            Some(tail_key) => {
                assert(linked_at(m, order, order.len() - 1));
                self.set_next(tail_key, Some(key));
            },
            None => {
                self.lru_head = Some(key);
            },
        }
        self.set_prev(key, tail);
        self.set_next(key, None);
        self.lru_tail = Some(key);
        let ghost more = order.push(key);
        proof {
            self.order@ = more;
            assert forall|i: int| 0 <= i < order.len() implies #[trigger] order[i] != key by {
                assert(order.contains(order[i]));
            }
            assert forall|i: int, j: int| 0 <= i < j < more.len() implies #[trigger] more[i]
                != #[trigger] more[j] by {
                if j < order.len() {
                    assert(order[i] != order[j]);
                } else {
                    assert(order[i] != key);
                }
            }
            assert forall|i: int| 0 <= i < more.len() implies #[trigger] linked_at(
                self.entries@,
                more,
                i,
            ) by {
                if i < order.len() {
                    assert(more[i] == order[i]);
                    assert(linked_at(m, order, i));
                    if i < order.len() - 1 {
                        assert(order[i] != order[order.len() - 1]);
                    }
                }
            }
            assert(same_data(m, self.entries@)) by {
                assert(m.dom() =~= self.entries@.dom());
            }
        }
    }

    /// Removes an object.
    pub fn remove(&mut self, key: u64) -> (r: Option<Item>)
        requires
            old(self).wf(),
        ensures
            final(self).wf(),
            r == item_at(old(self)@.items, key),
            final(self)@ == removed(old(self)@, key),
    {
        let found = self.get(key);
        let ghost order = self.order@;
        let ghost m = self.entries@;
        match found {
            Some(it) => {
                proof {
                    if !order.contains(key) {
                        lemma_absent(order, m, key);
                    }
                }
                self.detach(key);
                let ghost p = choose|p: int|
                    0 <= p < order.len() && #[trigger] order[p] == key && self.order@
                        == order.remove(p);
                let ghost detached = self.entries@;
                self.total_bytes = self.total_bytes.saturating_sub(it.size);
                self.entries.remove(&key);
                proof {
                    let rest = self.order@;
                    lemma_position(order, m, key, p);
                    lemma_taken_out(order, p);
                    assert forall|i: int| 0 <= i < rest.len() implies #[trigger] rest[i] != key by {
                        assert(rest.contains(rest[i]));
                    }
                    lemma_linked_frame(
                        detached,
                        self.entries@,
                        rest,
                        self.lru_head,
                        self.lru_tail,
                    );
                    assert forall|k: u64| #[trigger]
                        self.entries@.contains_key(k) implies rest.contains(k) by {
                        assert(m.contains_key(k));
                    }
                    assert forall|i: int| 0 <= i < rest.len() implies item_of(
                        #[trigger] rest[i],
                        m[rest[i]],
                    ) == item_of(rest[i], self.entries@[rest[i]]) by {
                        assert(linked_at(detached, rest, i));
                        assert(m.contains_key(rest[i]));
                    }
                    lemma_items_frame(m, self.entries@, rest);
                }
                Some(it)
            },
            None => None,
        }
    }

    /// Adds an object as the one used last, in place of one with the same key.
    pub fn insert(&mut self, it: Item)
        requires
            old(self).wf(),
        ensures
            final(self).wf(),
            final(self)@ == inserted(old(self)@, it),
    {
        let ghost start = *self;
        let _ = self.remove(it.key);
        let ghost order = self.order@;
        let ghost m = self.entries@;
        proof {
            keys_occur_once(start);
            lemma_removed_absent(start@.items, it.key);
            assert(!order.contains(it.key)) by {
                if order.contains(it.key) {
                    let p = choose|p: int| 0 <= p < order.len() && order[p] == it.key;
                    lemma_position(order, m, it.key, p);
                }
            }
        }
        self.total_bytes = self.total_bytes.saturating_add(it.size);
        let meta = DiskEntryMeta {
            size: it.size,
            expires_at: it.expires_at,
            last_access: it.last_access,
            prev: None,
            next: None,
        };
        self.entries.insert(it.key, meta);
        proof {
            assert forall|i: int| 0 <= i < order.len() implies #[trigger] order[i] != it.key by {
                assert(order.contains(order[i]));
            }
            lemma_linked_frame(m, self.entries@, order, self.lru_head, self.lru_tail);
        }
        let ghost with = self.entries@;
        self.attach_to_tail(it.key);
        proof {
            let now = self.order@;
            assert forall|k: u64| #[trigger] self.entries@.contains_key(k) implies now.contains(
                k,
            ) by {
                assert(with.contains_key(k));
                if k == it.key {
                    assert(now[order.len() as int] == k);
                } else {
                    assert(m.contains_key(k));
                    assert(order.contains(k));
                    let a = choose|a: int| 0 <= a < order.len() && order[a] == k;
                    assert(now[a] == k);
                }
            }
            assert(items_in(self.entries@, now) =~= items_in(m, order).push(it)) by {
                assert forall|i: int| 0 <= i < now.len() implies items_in(self.entries@, now)[i]
                    == items_in(m, order).push(it)[i] by {
                    assert(linked_at(self.entries@, now, i));
                    assert(with.contains_key(now[i]));
                }
            }
        }
    }

    /// Records that an object was used, and returns what to write down of it.
    pub fn touch(&mut self, key: u64, now: u64) -> (r: Option<DiskMetaRecord>)
        requires
            old(self).wf(),
        ensures
            final(self).wf(),
            final(self)@ == touched(old(self)@, key, now),
            r == (match item_at(old(self)@.items, key) {
                Some(it) => Some(
                    (DiskMetaRecord { expires_at: it.expires_at, last_access: now, size: it.size }),
                ),
                None => None,
            }),
    {
        let found = self.get(key);
        let ghost order = self.order@;
        let ghost m = self.entries@;
        match found {
            Some(it) => {
                proof {
                    if !order.contains(key) {
                        lemma_absent(order, m, key);
                    }
                }
                self.detach(key);
                let ghost p = choose|p: int|
                    0 <= p < order.len() && #[trigger] order[p] == key && self.order@
                        == order.remove(p);
                let ghost rest = self.order@;
                let ghost detached = self.entries@;
                proof {
                    lemma_position(order, m, key, p);
                    lemma_taken_out(order, p);
                    assert forall|i: int| 0 <= i < rest.len() implies #[trigger] rest[i] != key by {
                        assert(rest.contains(rest[i]));
                    }
                }
                let meta = DiskEntryMeta {
                    size: it.size,
                    expires_at: it.expires_at,
                    last_access: now,
                    prev: None,
                    next: None,
                };
                self.entries.insert(key, meta);
                let ghost with = self.entries@;
                proof {
                    lemma_linked_frame(detached, with, rest, self.lru_head, self.lru_tail);
                }
                self.attach_to_tail(key);
                proof {
                    let last = self.order@;
                    assert forall|k: u64| #[trigger]
                        self.entries@.contains_key(k) implies last.contains(k) by {
                        assert(with.contains_key(k));
                        if k == key {
                            assert(last[rest.len() as int] == k);
                        } else {
                            assert(detached.contains_key(k));
                            assert(m.contains_key(k));
                            assert(rest.contains(k));
                            let a = choose|a: int| 0 <= a < rest.len() && rest[a] == k;
                            assert(last[a] == k);
                        }
                    }
                    assert forall|i: int| 0 <= i < rest.len() implies item_of(
                        #[trigger] rest[i],
                        m[rest[i]],
                    ) == item_of(rest[i], self.entries@[rest[i]]) by {
                        assert(linked_at(detached, rest, i));
                        assert(m.contains_key(rest[i]));
                        assert(with.contains_key(rest[i]));
                    }
                    lemma_items_frame(m, self.entries@, rest);
                    lemma_items_push(self.entries@, rest, key);
                    assert(with.contains_key(key));
                }
                Some(
                    DiskMetaRecord { expires_at: it.expires_at, last_access: now, size: it.size },
                )
            },
            None => None,
        }
    }
}

/// In an index every key occurs once.
pub proof fn keys_occur_once(x: DiskCacheIndex)
    requires
        x.wf(),
    ensures
        keys_distinct(x@.items),
{
    let items = x@.items;
    assert forall|i: int, j: int| 0 <= i < j < items.len() implies (#[trigger] items[i]).key != (
    #[trigger] items[j]).key by {
        assert(x.order@[i] != x.order@[j]);
    }
}

proof fn lemma_removed_absent(items: Seq<Item>, key: u64)
    requires
        keys_distinct(items),
    ensures
        item_at(without(items, key), key) is None,
    decreases items.len(),
{
    if items.len() > 0 {
        let rest = items.drop_first();
        assert forall|i: int, j: int| 0 <= i < j < rest.len() implies (#[trigger] rest[i]).key != (
        #[trigger] rest[j]).key by {
            assert(rest[i] == items[i + 1]);
            assert(rest[j] == items[j + 1]);
        }
        lemma_removed_absent(rest, key);
        if items[0].key == key {
            lemma_not_found(rest, key, items);
        } else {
            let w = without(rest, key);
            assert((seq![items[0]] + w).drop_first() =~= w);
        }
    }
}

proof fn lemma_not_found(rest: Seq<Item>, key: u64, items: Seq<Item>)
    requires
        keys_distinct(items),
        items.len() > 0,
        items[0].key == key,
        rest.len() <= items.len() - 1,
        rest == items.skip(items.len() - rest.len()),
    ensures
        item_at(rest, key) is None,
    decreases rest.len(),
{
    if rest.len() > 0 {
        assert(rest[0] == items[items.len() - rest.len()]);
        assert(items[0].key != items[items.len() - rest.len()].key);
        assert(rest.drop_first() =~= items.skip(items.len() - (rest.len() - 1)));
        lemma_not_found(rest.drop_first(), key, items);
    }
}

// ---------------------------------------------------------------------------
// Eviction
// ---------------------------------------------------------------------------

/// What an eviction leaves: the objects behind the first `n`, and the keys of
/// those.
spec fn evicts_first(before: Seq<Item>, after: Seq<Item>, keys: Seq<u64>) -> bool {
    let n = before.len() - after.len();
    &&& 0 <= n
    &&& after == before.skip(n)
    &&& keys == keys_of(before.take(n))
}

proof fn lemma_evicts_none(items: Seq<Item>)
    ensures
        evicts_first(items, items, Seq::empty()),
{
    assert(items.skip(0) =~= items);
    assert(keys_of(items.take(0)) =~= Seq::empty());
}

proof fn lemma_evicts_one_more(start: Seq<Item>, here: Seq<Item>, keys: Seq<u64>)
    requires
        evicts_first(start, here, keys),
        here.len() > 0,
    ensures
        evicts_first(start, here.drop_first(), keys.push(here[0].key)),
{
    let n = start.len() - here.len();
    assert(here[0] == start[n]);
    assert(here.drop_first() =~= start.skip(n + 1));
    assert(keys_of(start.take(n + 1)) =~= keys_of(start.take(n)).push(start[n].key));
}

impl DiskCacheIndex {
    /// Removes the object unused for longest.
    pub fn pop_lru(&mut self) -> (r: Option<Item>)
        requires
            old(self).wf(),
        ensures
            final(self).wf(),
            old(self)@.items.len() == 0 ==> r is None && final(self)@ == old(self)@,
            old(self)@.items.len() > 0 ==> r == Some(old(self)@.items[0]) && final(self)@ == (
            IndexView {
                items: old(self)@.items.drop_first(),
                total_bytes: old(self)@.total_bytes.saturating_sub(old(self)@.items[0].size),
                ..old(self)@
            }),
    {
        match self.lru_head {
            Some(key) => {
                assert(self@.items[0].key == key);
                self.remove(key)
            },
            None => None,
        }
    }

    /// Evicts the object unused for longest, and returns its key.
    fn evict_first(&mut self) -> (r: u64)
        requires
            old(self).wf(),
            old(self)@.items.len() > 0,
        ensures
            final(self).wf(),
            final(self)@ == evicted_first(old(self)@),
            r == old(self)@.items[0].key,
    {
        let ghost v = self@;
        match self.pop_lru() {
            Some(it) => {
                self.evictions = self.evictions.wrapping_add(1);
                self.evicted_bytes = self.evicted_bytes.wrapping_add(it.size);
                assert(self@ =~= evicted_first(v));
                it.key
            },
            None => 0,
        }
    }

    /// Evicts objects until the cache keeps its limits with `extra_bytes` and
    /// `extra_entries` more, and returns their keys.
    fn evict_for(&mut self, settings: CacheSettings, extra_bytes: u64, extra_entries: usize) -> (r:
        Vec<u64>)
        requires
            old(self).wf(),
        ensures
            final(self).wf(),
            final(self)@ == evicted_to_limits(
                old(self)@,
                settings,
                extra_bytes,
                extra_entries as nat,
            ),
            evicts_first(old(self)@.items, final(self)@.items, r@),
    {
        let ghost start = self@;
        let mut evicted: Vec<u64> = Vec::new();
        proof {
            lemma_evicts_none(start.items);
        }
        loop
            invariant
                self.wf(),
                start == old(self)@,
                evicted_to_limits(start, settings, extra_bytes, extra_entries as nat)
                    == evicted_to_limits(self@, settings, extra_bytes, extra_entries as nat),
                evicts_first(start.items, self@.items, evicted@),
            decreases self@.items.len(),
        {
            let len: usize = self.len();
            if len == 0 {
                return evicted;
            }
            let over = (settings.max_total_bytes > 0 && self.total_bytes.saturating_add(extra_bytes)
                > settings.max_total_bytes) || (settings.max_entries > 0 && (extra_entries
                > settings.max_entries || len > settings.max_entries - extra_entries));
            if !over {
                return evicted;
            }
            proof {
                lemma_evicts_one_more(start.items, self@.items, evicted@);
            }
            let key = self.evict_first();
            evicted.push(key);
        }
    }

    /// Evicts objects until one more of the given size fits, and returns their
    /// keys.
    pub fn evict_for_one(&mut self, settings: CacheSettings, size: u64) -> (r: Vec<u64>)
        requires
            old(self).wf(),
        ensures
            final(self).wf(),
            final(self)@ == evicted_to_limits(old(self)@, settings, size, 1),
            r@ == keys_of(
                old(self)@.items.take(old(self)@.items.len() - final(self)@.items.len()),
            ),
    {
        self.evict_for(settings, size, 1)
    }

    /// Forgets all objects, as the directory is about to be read.
    pub fn start_loading(&mut self)
        ensures
            final(self).wf(),
            final(self)@ == (IndexView {
                items: Seq::empty(),
                total_bytes: 0,
                loaded: true,
                ..old(self)@
            }),
    {
        self.entries.clear();
        self.lru_head = None;
        self.lru_tail = None;
        self.total_bytes = 0;
        self.loaded = true;
        proof {
            self.order@ = Seq::empty();
        }
        assert(self@.items =~= Seq::empty());
    }

    /// Evicts objects until the cache keeps its limits, and returns their keys.
    pub fn evict_to_limits(&mut self, settings: CacheSettings) -> (r: Vec<u64>)
        requires
            old(self).wf(),
        ensures
            final(self).wf(),
            final(self)@ == evicted_to_limits(old(self)@, settings, 0, 0),
            r@ == keys_of(
                old(self)@.items.take(old(self)@.items.len() - final(self)@.items.len()),
            ),
    {
        self.evict_for(settings, 0, 0)
    }

    /// Evicts the objects unused for too long, and returns their keys.
    pub fn evict_inactive(&mut self, now: u64, inactive_secs: u64) -> (r: Vec<u64>)
        requires
            old(self).wf(),
        ensures
            final(self).wf(),
            final(self)@ == evicted_inactive(old(self)@, now, inactive_secs),
            final(self)@.items.len() <= old(self)@.items.len(),
            final(self)@.items == old(self)@.items.skip(
                old(self)@.items.len() - final(self)@.items.len(),
            ),
            r@ == keys_of(
                old(self)@.items.take(old(self)@.items.len() - final(self)@.items.len()),
            ),
    {
        let ghost start = self@;
        let mut evicted: Vec<u64> = Vec::new();
        proof {
            lemma_evicts_none(start.items);
        }
        if inactive_secs == 0 {
            return evicted;
        }
        loop
            invariant
                self.wf(),
                inactive_secs > 0,
                start == old(self)@,
                evicted_inactive(start, now, inactive_secs) == evicted_inactive(
                    self@,
                    now,
                    inactive_secs,
                ),
                evicts_first(start.items, self@.items, evicted@),
            decreases self@.items.len(),
        {
            let head = match self.lru_head {
                Some(k) => k,
                None => {
                    return evicted;
                },
            };
            assert(self@.items[0].key == head);
            let first = match self.get(head) {
                Some(it) => it,
                None => {
                    return evicted;
                },
            };
            assert(first == self@.items[0]);
            if now <= first.last_access || now - first.last_access <= inactive_secs {
                return evicted;
            }
            proof {
                lemma_evicts_one_more(start.items, self@.items, evicted@);
            }
            let key = self.evict_first();
            evicted.push(key);
        }
    }
}

/// Eviction takes the objects unused for longest and leaves the others as they
/// are. It stops as soon as the limits are kept; if they are not kept then,
/// nothing is left.
pub proof fn eviction_takes_the_oldest(
    v: IndexView,
    s: CacheSettings,
    extra_bytes: u64,
    extra_entries: nat,
)
    ensures
        ({
            let w = evicted_to_limits(v, s, extra_bytes, extra_entries);
            let n = v.items.len() - w.items.len();
            &&& 0 <= n
            &&& w.items == v.items.skip(n)
            &&& w.items.len() == 0 || !exceeds(
                s,
                w.total_bytes.saturating_add(extra_bytes) as int,
                (w.items.len() + extra_entries) as int,
            )
        }),
    decreases v.items.len(),
{
    if v.items.len() > 0 && exceeds(
        s,
        v.total_bytes.saturating_add(extra_bytes) as int,
        (v.items.len() + extra_entries) as int,
    ) {
        let u = evicted_first(v);
        eviction_takes_the_oldest(u, s, extra_bytes, extra_entries);
        let w = evicted_to_limits(v, s, extra_bytes, extra_entries);
        let n = v.items.len() - w.items.len();
        assert(u.items.skip(n - 1) =~= v.items.skip(n));
    } else {
        assert(v.items.skip(0) =~= v.items);
    }
}

/// Whether the byte count of an index is that of its objects.
pub open spec fn counts_exactly(v: IndexView) -> bool {
    v.total_bytes == sum_of_sizes(v.items)
}

proof fn lemma_sum_prepend(it: Item, items: Seq<Item>)
    ensures
        sum_of_sizes(seq![it] + items) == it.size + sum_of_sizes(items),
    decreases items.len(),
{
    let all = seq![it] + items;
    if items.len() == 0 {
        assert(all.drop_last() =~= Seq::empty());
        assert(all.last() == it);
        assert(sum_of_sizes(all.drop_last()) == 0);
    } else {
        assert(all.drop_last() =~= seq![it] + items.drop_last());
        lemma_sum_prepend(it, items.drop_last());
    }
}

proof fn lemma_sum_without(items: Seq<Item>, key: u64)
    ensures
        match item_at(items, key) {
            Some(it) => sum_of_sizes(without(items, key)) + it.size == sum_of_sizes(items),
            None => without(items, key) == items,
        },
    decreases items.len(),
{
    if items.len() > 0 {
        let rest = items.drop_first();
        assert(items =~= seq![items[0]] + rest);
        lemma_sum_prepend(items[0], rest);
        if items[0].key != key {
            lemma_sum_without(rest, key);
            lemma_sum_prepend(items[0], without(rest, key));
        }
    }
}

/// As long as the bytes of all objects can be counted, the index counts them
/// exactly, whatever is removed, added, used or evicted.
pub proof fn bytes_stay_exact(v: IndexView, key: u64, it: Item, now: u64)
    requires
        counts_exactly(v),
        sum_of_sizes(v.items) + it.size <= u64::MAX,
    ensures
        counts_exactly(removed(v, key)),
        counts_exactly(inserted(v, it)),
        counts_exactly(touched(v, key, now)),
        v.items.len() > 0 ==> counts_exactly(evicted_first(v)),
{
    lemma_sum_without(v.items, key);
    lemma_sum_without(v.items, it.key);
    let w = removed(v, it.key);
    assert(w.items.push(it).drop_last() =~= w.items);
    match item_at(v.items, key) {
        Some(x) => {
            let t = touched(v, key, now);
            assert(t.items.drop_last() =~= without(v.items, key));
        },
        None => {},
    }
    if v.items.len() > 0 {
        assert(v.items =~= seq![v.items[0]] + v.items.drop_first());
        lemma_sum_prepend(v.items[0], v.items.drop_first());
    }
}

pub proof fn lemma_removed_is_absent(v: IndexView, key: u64)
    requires
        keys_distinct(v.items),
    ensures
        item_at(removed(v, key).items, key) is None,
{
    lemma_removed_absent(v.items, key);
}

proof fn lemma_rest_absent(items: Seq<Item>, key: u64)
    requires
        items.len() > 0,
        item_at(items, key) is None,
    ensures
        item_at(items.drop_first(), key) is None,
{
}

pub proof fn lemma_evicted_absent(
    v: IndexView,
    s: CacheSettings,
    extra_bytes: u64,
    extra_entries: nat,
    key: u64,
)
    requires
        item_at(v.items, key) is None,
    ensures
        item_at(evicted_to_limits(v, s, extra_bytes, extra_entries).items, key) is None,
    decreases v.items.len(),
{
    if v.items.len() > 0 && exceeds(
        s,
        v.total_bytes.saturating_add(extra_bytes) as int,
        (v.items.len() + extra_entries) as int,
    ) {
        lemma_rest_absent(v.items, key);
        lemma_evicted_absent(evicted_first(v), s, extra_bytes, extra_entries, key);
    }
}

pub proof fn lemma_evicted_inactive_absent(v: IndexView, now: u64, inactive_secs: u64, key: u64)
    requires
        item_at(v.items, key) is None,
    ensures
        item_at(evicted_inactive(v, now, inactive_secs).items, key) is None,
    decreases v.items.len(),
{
    if inactive_secs > 0 && v.items.len() > 0 && inactive(v.items[0], now, inactive_secs) {
        lemma_rest_absent(v.items, key);
        lemma_evicted_inactive_absent(evicted_first(v), now, inactive_secs, key);
    }
}

// ---------------------------------------------------------------------------
// What each operation does to the objects
// ---------------------------------------------------------------------------

proof fn lemma_item_found(items: Seq<Item>, p: int)
    requires
        keys_distinct(items),
        0 <= p < items.len(),
    ensures
        item_at(items, items[p].key) == Some(items[p]),
        without(items, items[p].key) == items.take(p) + items.skip(p + 1),
    decreases items.len(),
{
    if p == 0 {
        assert(items.drop_first() =~= items.take(0) + items.skip(1));
    } else {
        let rest = items.drop_first();
        assert forall|i: int, j: int| 0 <= i < j < rest.len() implies (#[trigger] rest[i]).key != (
        #[trigger] rest[j]).key by {
            assert(rest[i] == items[i + 1]);
            assert(rest[j] == items[j + 1]);
        }
        assert(items[0].key != items[p].key);
        assert(rest[p - 1] == items[p]);
        lemma_item_found(rest, p - 1);
        assert(seq![items[0]] + (rest.take(p - 1) + rest.skip(p)) =~= items.take(p) + items.skip(
            p + 1,
        ));
    }
}

proof fn lemma_none_found(items: Seq<Item>, key: u64)
    requires
        forall|i: int| 0 <= i < items.len() ==> (#[trigger] items[i]).key != key,
    ensures
        item_at(items, key) is None,
    decreases items.len(),
{
    if items.len() > 0 {
        let rest = items.drop_first();
        assert forall|i: int| 0 <= i < rest.len() implies (#[trigger] rest[i]).key != key by {
            assert(rest[i] == items[i + 1]);
        }
        assert(items[0].key != key);
        lemma_none_found(rest, key);
    }
}

/// An object is found by its key, and by no other. Taking it away leaves the
/// others in their order, and its bytes no longer count; using it moves it behind
/// the others, with the time of its use, and leaves the bytes.
pub proof fn objects_go_by_their_keys(v: IndexView, p: int, now: u64)
    requires
        keys_distinct(v.items),
        0 <= p < v.items.len(),
        v.items[p].size <= v.total_bytes,
    ensures
        ({
            let it = v.items[p];
            let others = v.items.take(p) + v.items.skip(p + 1);
            let gone = removed(v, it.key);
            let used = touched(v, it.key, now);
            &&& item_at(v.items, it.key) == Some(it)
            &&& gone.items == others
            &&& gone.total_bytes == v.total_bytes - it.size
            &&& gone.evictions == v.evictions && gone.evicted_bytes == v.evicted_bytes
            &&& gone.loaded == v.loaded && gone.cache_dir == v.cache_dir
            &&& used.items.len() == v.items.len()
            &&& used.items.drop_last() == others
            &&& used.items.last().key == it.key && used.items.last().size == it.size
            &&& used.items.last().expires_at == it.expires_at && used.items.last().last_access == now
            &&& used.total_bytes == v.total_bytes
            &&& used.evictions == v.evictions && used.evicted_bytes == v.evicted_bytes
            &&& used.loaded == v.loaded && used.cache_dir == v.cache_dir
        }),
{
    lemma_item_found(v.items, p);
    let used = touched(v, v.items[p].key, now);
    assert(used.items.drop_last() =~= v.items.take(p) + v.items.skip(p + 1));
}

/// A key that no object has finds none, and taking it away or using it changes
/// nothing.
pub proof fn unknown_keys_find_nothing(v: IndexView, key: u64, now: u64)
    requires
        forall|i: int| 0 <= i < v.items.len() ==> (#[trigger] v.items[i]).key != key,
    ensures
        item_at(v.items, key) is None,
        removed(v, key) == v,
        touched(v, key, now) == v,
{
    lemma_none_found(v.items, key);
}

/// A new object stands behind the others, and its bytes count. It takes the place
/// of one with its key.
pub proof fn new_objects_come_last(v: IndexView, it: Item, p: int)
    requires
        v.total_bytes + it.size <= u64::MAX,
    ensures
        (forall|i: int| 0 <= i < v.items.len() ==> (#[trigger] v.items[i]).key != it.key) ==> inserted(
            v,
            it,
        ).items == v.items.push(it) && inserted(v, it).total_bytes == v.total_bytes + it.size,
        keys_distinct(v.items) && 0 <= p < v.items.len() && v.items[p].key == it.key && v.items[p].size
            <= v.total_bytes ==> inserted(v, it).items == (v.items.take(p) + v.items.skip(p + 1)).push(
            it,
        ) && inserted(v, it).total_bytes == v.total_bytes - v.items[p].size + it.size,
        inserted(v, it).evictions == v.evictions,
        inserted(v, it).evicted_bytes == v.evicted_bytes,
        inserted(v, it).loaded == v.loaded,
        inserted(v, it).cache_dir == v.cache_dir,
{
    if forall|i: int| 0 <= i < v.items.len() ==> (#[trigger] v.items[i]).key != it.key {
        lemma_none_found(v.items, it.key);
    }
    if keys_distinct(v.items) && 0 <= p < v.items.len() && v.items[p].key == it.key {
        lemma_item_found(v.items, p);
    }
}

/// A limit is exceeded where there are more bytes or more objects than it allows;
/// zero is no limit.
pub proof fn limits_are_upper_bounds(s: CacheSettings, total_bytes: int, entries: int)
    ensures
        s.max_total_bytes == 0 && s.max_entries == 0 ==> !exceeds(s, total_bytes, entries),
        s.max_total_bytes > 0 && total_bytes > s.max_total_bytes ==> exceeds(s, total_bytes, entries),
        s.max_entries > 0 && entries > s.max_entries ==> exceeds(s, total_bytes, entries),
        total_bytes <= s.max_total_bytes && entries <= s.max_entries ==> !exceeds(
            s,
            total_bytes,
            entries,
        ),
        total_bytes <= s.max_total_bytes && s.max_entries == 0 ==> !exceeds(s, total_bytes, entries),
        s.max_total_bytes == 0 && entries <= s.max_entries ==> !exceeds(s, total_bytes, entries),
{
}

/// Whether the objects from a position on, with what is to come, are over a limit:
/// they have more bytes, or there are more of them.
pub open spec fn rest_is_over(
    items: Seq<Item>,
    from: int,
    s: CacheSettings,
    extra_bytes: u64,
    extra_entries: nat,
) -> bool {
    ||| s.max_total_bytes > 0 && sum_of_sizes(items.skip(from)) + extra_bytes > s.max_total_bytes
    ||| s.max_entries > 0 && items.len() - from + extra_entries > s.max_entries
}

/// Eviction takes objects from the front only as long as the rest is over a limit,
/// and counts each object and its bytes.
pub proof fn eviction_stops_in_time(
    v: IndexView,
    s: CacheSettings,
    extra_bytes: u64,
    extra_entries: nat,
)
    requires
        counts_exactly(v),
        v.total_bytes + extra_bytes <= u64::MAX,
    ensures
        ({
            let w = evicted_to_limits(v, s, extra_bytes, extra_entries);
            let n = v.items.len() - w.items.len();
            &&& 0 <= n <= v.items.len()
            &&& w.items == v.items.skip(n)
            &&& forall|j: int|
                0 <= j < n ==> #[trigger] rest_is_over(v.items, j, s, extra_bytes, extra_entries)
            &&& counts_exactly(w)
            &&& w.total_bytes <= v.total_bytes
            &&& v.evictions + n <= u64::MAX ==> w.evictions == v.evictions + n
            &&& v.evicted_bytes + v.total_bytes <= u64::MAX ==> w.evicted_bytes == v.evicted_bytes
                + v.total_bytes - w.total_bytes
            &&& w.loaded == v.loaded && w.cache_dir == v.cache_dir
        }),
    decreases v.items.len(),
{
    let w = evicted_to_limits(v, s, extra_bytes, extra_entries);
    assert(v.items.skip(0) =~= v.items);
    if v.items.len() > 0 && exceeds(
        s,
        v.total_bytes.saturating_add(extra_bytes) as int,
        (v.items.len() + extra_entries) as int,
    ) {
        let x = evicted_first(v);
        assert(v.items =~= seq![v.items[0]] + x.items);
        lemma_sum_prepend(v.items[0], x.items);
        eviction_stops_in_time(x, s, extra_bytes, extra_entries);
        let n = v.items.len() - w.items.len();
        assert(v.items.skip(n) =~= x.items.skip(n - 1));
        assert forall|j: int| 0 <= j < n implies #[trigger] rest_is_over(
            v.items,
            j,
            s,
            extra_bytes,
            extra_entries,
        ) by {
            if j > 0 {
                assert(v.items.skip(j) =~= x.items.skip(j - 1));
                assert(rest_is_over(x.items, j - 1, s, extra_bytes, extra_entries));
            }
        }
    }
}

/// Where a limit on idle time is set, the objects at the front that were last used
/// longer ago leave, up to the first that was not; without it none leaves.
pub proof fn idle_objects_leave(v: IndexView, now: u64, secs: u64)
    ensures
        ({
            let w = evicted_inactive(v, now, secs);
            let n = v.items.len() - w.items.len();
            &&& 0 <= n <= v.items.len()
            &&& w.items == v.items.skip(n)
            &&& secs == 0 ==> w == v
            &&& forall|j: int| 0 <= j < n ==> (#[trigger] v.items[j]).last_access + secs < now
            &&& secs > 0 && n < v.items.len() ==> v.items[n].last_access + secs >= now
            &&& v.evictions + n <= u64::MAX ==> w.evictions == v.evictions + n
        }),
    decreases v.items.len(),
{
    let w = evicted_inactive(v, now, secs);
    assert(v.items.skip(0) =~= v.items);
    if secs > 0 && v.items.len() > 0 && inactive(v.items[0], now, secs) {
        let x = evicted_first(v);
        idle_objects_leave(x, now, secs);
        let n = v.items.len() - w.items.len();
        assert(v.items.skip(n) =~= x.items.skip(n - 1));
        assert forall|j: int| 0 <= j < n implies (#[trigger] v.items[j]).last_access + secs < now by {
            if j > 0 {
                assert(v.items[j] == x.items[j - 1]);
            }
        }
        if n < v.items.len() {
            assert(v.items[n] == x.items[n - 1]);
        }
    }
}

} // verus!
