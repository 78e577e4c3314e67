//! The disk cache: what is written down of a cached object, and what is done
//! with an object that is asked for, stored or found in the directory.
use super::index::{
    self, CacheSettings, DiskCacheIndex, DiskMetaRecord, IndexView, Item,
};
use crate::encoding::strict;
use crate::number::{self, parse_number, parse_u64, push_decimal, push_hex};
use crate::text::{self, chars_of, ends_with, head_to, spells, split_at_char, split_lines, trim, Class};
use vstd::prelude::*;
use vstd::utf8::*;

verus! {

// ---------------------------------------------------------------------------
// Files
// ---------------------------------------------------------------------------

/// The name of the file with the data of an object.
pub open spec fn data_name(key: u64) -> Seq<char> {
    number::hex_digits(key as nat, 16) + ".cache"@
}

/// The name of the file with the record of an object.
pub open spec fn meta_name(key: u64) -> Seq<char> {
    number::hex_digits(key as nat, 16) + ".meta"@
}

/// The key in the name of a file with a record.
pub open spec fn key_in_name(name: Seq<char>) -> Option<nat> {
    if text::ends(name, ".meta"@) {
        number::parsed_number(name.take(name.len() - ".meta"@.len()), 16, u64::MAX as nat)
    } else {
        None
    }
}

/// The names of the files of an object: of its data and of its record.
pub fn cache_file_names(key: u64) -> (r: (String, String))
    ensures
        r.0@ == data_name(key),
        r.1@ == meta_name(key),
{
    let mut data = String::new();
    push_hex(&mut data, key, 16);
    data.append(".cache");
    let mut meta = String::new();
    push_hex(&mut meta, key, 16);
    meta.append(".meta");
    assert(data@ =~= data_name(key));
    assert(meta@ =~= meta_name(key));
    (data, meta)
}

/// The key in the name of a file with a record.
pub fn key_from_meta_name(file_name: &str) -> (r: Option<u64>)
    ensures
        match r {
            Some(k) => key_in_name(file_name@) == Some(k as nat),
            None => key_in_name(file_name@) is None,
        },
{
    let name = chars_of(file_name);
    let suffix = chars_of(".meta");
    if !ends_with(name.as_slice(), suffix.as_slice()) {
        return None;
    }
    let n: usize = name.len() - suffix.len();
    parse_number(head_to(name.as_slice(), n), 16, u64::MAX)
}

/// The key of an object is read back from the name of its record.
pub proof fn key_reads_back(key: u64)
    ensures
        key_in_name(meta_name(key)) == Some(key as nat),
{
    let name = meta_name(key);
    let hex = number::hex_digits(key as nat, 16);
    let n = name.len() - ".meta"@.len();
    assert(name.skip(n) =~= ".meta"@);
    assert(name.take(n) =~= hex);
    number::hex_reads_back(key);
}

/// The name under which a file is written before it takes its place.
pub fn temp_name(file_name: &str, nanos: u128) -> (r: String)
    ensures
        r@ == file_name@ + ".tmp-"@ + number::decimal(nanos as nat),
{
    let mut out = text::copy_str(file_name);
    out.append(".tmp-");
    push_decimal(&mut out, nanos);
    out
}

// ---------------------------------------------------------------------------
// Records
// ---------------------------------------------------------------------------

/// The text of a record.
pub open spec fn record_text(r: DiskMetaRecord) -> Seq<char> {
    "expires_at="@ + number::decimal(r.expires_at as nat) + "\nlast_access="@ + number::decimal(
        r.last_access as nat,
    ) + "\nsize="@ + number::decimal(r.size as nat) + "\n"@
}

/// Writes a record down.
pub fn format_meta_record(record: &DiskMetaRecord) -> (r: String)
    ensures
        r@ == record_text(*record),
{
    let mut out = String::new();
    out.append("expires_at=");
    push_decimal(&mut out, record.expires_at as u128);
    out.append("\nlast_access=");
    push_decimal(&mut out, record.last_access as u128);
    out.append("\nsize=");
    push_decimal(&mut out, record.size as u128);
    out.append("\n");
    assert(out@ =~= record_text(*record));
    out
}

/// A number in a record.
pub open spec fn number_in(s: Seq<char>) -> Option<nat> {
    number::parsed_number(s, 10, u64::MAX as nat)
}

/// What the lines of a record have said so far.
pub struct Draft {
    pub expires_at: Option<nat>,
    pub last_access: Option<nat>,
    pub size: Option<nat>,
}

/// What a line adds to what was said before.
pub open spec fn draft_with(d: Draft, name: Seq<char>, value: Seq<char>) -> Draft {
    if name == "expires_at"@ {
        Draft { expires_at: number_in(value), ..d }
    } else if name == "last_access"@ {
        Draft { last_access: number_in(value), ..d }
    } else if name == "size"@ {
        Draft { size: number_in(value), ..d }
    } else {
        d
    }
}

/// What the lines of a record say; nothing where a line that is not blank has
/// no equals sign.
pub open spec fn draft_of(ls: Seq<Seq<char>>) -> Option<Draft>
    decreases ls.len(),
{
    if ls.len() == 0 {
        Some((Draft { expires_at: None, last_access: None, size: None }))
    } else {
        match draft_of(ls.drop_last()) {
            None => None,
            Some(d) => {
                let t = text::trimmed(ls.last());
                if t.len() == 0 {
                    Some(d)
                } else {
                    match text::split_once(t, '=') {
                        None => None,
                        Some(p) => Some(draft_with(d, text::trimmed(p.0), text::trimmed(p.1))),
                    }
                }
            },
        }
    }
}

/// The record that a text gives: a time of expiry alone, or lines with names
/// and values of which the time of expiry has to be there.
pub open spec fn record_in(s: Seq<char>) -> Option<DiskMetaRecord> {
    match number_in(text::trimmed(s)) {
        Some(n) => Some(
            (DiskMetaRecord { expires_at: n as u64, last_access: n as u64, size: 0 }),
        ),
        None => match draft_of(text::lines(s)) {
            None => None,
            Some(d) => match d.expires_at {
                None => None,
                Some(e) => Some(
                    (DiskMetaRecord {
                        expires_at: e as u64,
                        last_access: match d.last_access {
                            Some(n) => n as u64,
                            None => e as u64,
                        },
                        size: match d.size {
                            Some(n) => n as u64,
                            None => 0,
                        },
                    }),
                ),
            },
        },
    }
}

/// Whether an optional number is the given one.
spec fn same_number(a: Option<u64>, b: Option<nat>) -> bool {
    match a {
        Some(n) => b == Some(n as nat),
        None => b is None,
    }
}

/// Reads a record.
pub fn parse_meta_record(meta_str: &str) -> (r: Option<DiskMetaRecord>)
    ensures
        r == record_in(meta_str@),
{
    let mc = chars_of(meta_str);
    match parse_u64(trim(mc.as_slice())) {
        Some(n) => {
            return Some(DiskMetaRecord { expires_at: n, last_access: n, size: 0 });
        },
        None => {},
    }
    let ls = split_lines(mc.as_slice());
    let ghost all = text::lines(meta_str@);
    let mut expires_at: Option<u64> = None;
    let mut last_access: Option<u64> = None;
    let mut size: Option<u64> = None;
    assert(all.take(0) =~= seq![]);
    for i in 0..ls.len()
        invariant
            all == text::lines(meta_str@),
            number_in(text::trimmed(meta_str@)) is None,
            text::views(ls@) == all,
            draft_of(all.take(i as int)) is Some,
            same_number(expires_at, draft_of(all.take(i as int))->0.expires_at),
            same_number(last_access, draft_of(all.take(i as int))->0.last_access),
            same_number(size, draft_of(all.take(i as int))->0.size),
    {
        assert(all.take(i + 1).drop_last() =~= all.take(i as int));
        assert(all.take(i + 1).last() == ls@[i as int]@);
        let t = trim(ls[i]);
        if t.len() > 0 {
            match split_at_char(t, '=') {
                None => {
                    proof {
                        lemma_draft_fails(all, i + 1);
                    }
                    return None;
                },
                Some((name, value)) => {
                    let n = trim(name);
                    let v = trim(value);
                    if spells(n, "expires_at") {
                        expires_at = parse_u64(v);
                    } else if spells(n, "last_access") {
                        last_access = parse_u64(v);
                    } else if spells(n, "size") {
                        size = parse_u64(v);
                    }
                },
            }
        }
    }
    assert(all.take(ls@.len() as int) =~= all);
    match expires_at {
        None => None,
        Some(e) => {
            let last: u64 = match last_access {
                Some(n) => n,
                None => e,
            };
            let bytes: u64 = match size {
                Some(n) => n,
                None => 0,
            };
            Some(DiskMetaRecord { expires_at: e, last_access: last, size: bytes })
        },
    }
}

proof fn lemma_draft_fails(ls: Seq<Seq<char>>, n: int)
    requires
        0 <= n <= ls.len(),
        draft_of(ls.take(n)) is None,
    ensures
        draft_of(ls) is None,
    decreases ls.len() - n,
{
    if n < ls.len() {
        assert(ls.take(n + 1).drop_last() =~= ls.take(n));
        lemma_draft_fails(ls, n + 1);
    } else {
        assert(ls.take(n) =~= ls);
    }
}

// ---------------------------------------------------------------------------
// Records are read back
// ---------------------------------------------------------------------------

proof fn lemma_trim_keeps_first(s: Seq<char>)
    requires
        s.len() > 0,
        !text::is_white(s[0]),
    ensures
        text::trimmed(s).len() > 0,
        text::trimmed(s)[0] == s[0],
{
    lemma_trim_end_keeps_first(s);
}

proof fn lemma_trim_end_keeps_first(s: Seq<char>)
    requires
        s.len() > 0,
        !text::is_white(s[0]),
    ensures
        text::trim_end(s, Class::White).len() > 0,
        text::trim_end(s, Class::White)[0] == s[0],
    decreases s.len(),
{
    if text::is_white(s.last()) {
        assert(s.len() > 1);
        lemma_trim_end_keeps_first(s.drop_last());
    }
}

proof fn lemma_lines_cons(a: Seq<char>, rest: Seq<char>)
    requires
        !a.contains('\n'),
        a.len() > 0,
        a.last() != '\r',
    ensures
        text::lines(a + seq!['\n'] + rest) == seq![a] + text::lines(rest),
{
    let s = a + seq!['\n'] + rest;
    let n = a.len() as int;
    assert forall|j: int| 0 <= j < n implies s[j] != '\n' by {
        assert(s[j] == a[j]);
    }
    text::lemma_first_pos(s, '\n', n);
    assert(s.take(n) =~= a);
    assert(s.skip(n + 1) =~= rest);
}

/// A line of a record.
spec fn record_line(name: Seq<char>, n: nat) -> Seq<char> {
    name + seq!['='] + number::decimal(n)
}

/// What a line of a record with a plain name says.
proof fn lemma_record_line(name: Seq<char>, n: nat)
    requires
        plain_name(name),
        n <= u64::MAX,
    ensures
        ({
            let line = record_line(name, n);
            &&& text::trimmed(line) == line
            &&& text::split_once(line, '=') == Some((name, number::decimal(n)))
            &&& text::trimmed(name) == name
            &&& text::trimmed(number::decimal(n)) == number::decimal(n)
            &&& number_in(number::decimal(n)) == Some(n)
            &&& !line.contains('\n')
            &&& line.len() > 0
            &&& line.last() != '\r'
        }),
{
    let d = number::decimal(n);
    let line = record_line(name, n);
    number::lemma_digits_plain(n);
    let k = name.len() as int;
    assert(line[0] == name[0]);
    assert(line.last() == d.last());
    assert(d.last() == d[d.len() - 1]);
    text::lemma_trim_nothing(line);
    text::lemma_trim_nothing(name);
    text::lemma_trim_nothing(d);
    assert forall|j: int| 0 <= j < k implies line[j] != '=' by {
        assert(line[j] == name[j]);
    }
    text::lemma_first_pos(line, '=', k);
    assert(line.take(k) =~= name);
    assert(line.skip(k + 1) =~= d);
    number::decimal_reads_back(n, u64::MAX as nat);
    assert(!line.contains('\n')) by {
        if line.contains('\n') {
            let j = choose|j: int| 0 <= j < line.len() && line[j] == '\n';
            if j < k {
                assert(line[j] == name[j]);
            } else if j > k {
                assert(line[j] == d[j - k - 1]);
            }
        }
    }
}

/// Whether a text can be the name of a value.
spec fn plain_name(name: Seq<char>) -> bool {
    name.len() > 0 && forall|i: int|
        0 <= i < name.len() ==> 'a' <= #[trigger] name[i] <= 'z' || name[i] == '_'
}

proof fn lemma_record_names()
    ensures
        plain_name("expires_at"@),
        plain_name("last_access"@),
        plain_name("size"@),
        "expires_at"@ != "last_access"@,
        "expires_at"@ != "size"@,
        "last_access"@ != "size"@,
        "expires_at"@[0] == 'e',
{
    reveal_strlit("expires_at");
    reveal_strlit("last_access");
    reveal_strlit("size");
    assert("expires_at"@[0] != "last_access"@[0]);
    assert("expires_at"@[0] != "size"@[0]);
    assert("last_access"@[0] != "size"@[0]);
}

proof fn lemma_record_shape(r: DiskMetaRecord)
    ensures
        record_text(r) == record_line("expires_at"@, r.expires_at as nat) + seq!['\n'] + (
        record_line("last_access"@, r.last_access as nat) + seq!['\n'] + (record_line(
            "size"@,
            r.size as nat,
        ) + seq!['\n'] + Seq::<char>::empty())),
{
    reveal_strlit("expires_at=");
    reveal_strlit("\nlast_access=");
    reveal_strlit("\nsize=");
    reveal_strlit("\n");
    reveal_strlit("expires_at");
    reveal_strlit("last_access");
    reveal_strlit("size");
    assert("expires_at="@ =~= "expires_at"@ + seq!['=']);
    assert("\nlast_access="@ =~= seq!['\n'] + "last_access"@ + seq!['=']);
    assert("\nsize="@ =~= seq!['\n'] + "size"@ + seq!['=']);
    assert("\n"@ =~= seq!['\n']);
    assert(record_text(r) =~= record_line("expires_at"@, r.expires_at as nat) + seq!['\n'] + (
    record_line("last_access"@, r.last_access as nat) + seq!['\n'] + (record_line(
        "size"@,
        r.size as nat,
    ) + seq!['\n'] + Seq::<char>::empty())));
}

proof fn lemma_record_lines(r: DiskMetaRecord)
    ensures
        text::lines(record_text(r)) == seq![
            record_line("expires_at"@, r.expires_at as nat),
            record_line("last_access"@, r.last_access as nat),
            record_line("size"@, r.size as nat),
        ],
        number_in(text::trimmed(record_text(r))) is None,
{
    lemma_record_names();
    lemma_record_shape(r);
    let l1 = record_line("expires_at"@, r.expires_at as nat);
    let l2 = record_line("last_access"@, r.last_access as nat);
    let l3 = record_line("size"@, r.size as nat);
    lemma_record_line("expires_at"@, r.expires_at as nat);
    lemma_record_line("last_access"@, r.last_access as nat);
    lemma_record_line("size"@, r.size as nat);
    let t3 = l3 + seq!['\n'] + Seq::<char>::empty();
    let t2 = l2 + seq!['\n'] + t3;
    lemma_lines_cons(l1, t2);
    lemma_lines_cons(l2, t3);
    lemma_lines_cons(l3, Seq::<char>::empty());
    assert(text::lines(record_text(r)) =~= seq![l1, l2, l3]);
    let whole = record_text(r);
    assert(whole[0] == 'e');
    lemma_trim_keeps_first(whole);
    assert(!number::is_digit(text::trimmed(whole)[0], 10));
}

proof fn lemma_draft_push(ls: Seq<Seq<char>>, d: Draft, name: Seq<char>, n: nat)
    requires
        draft_of(ls) == Some(d),
        plain_name(name),
        n <= u64::MAX,
    ensures
        draft_of(ls.push(record_line(name, n))) == Some(draft_with(d, name, number::decimal(n))),
        number_in(number::decimal(n)) == Some(n),
{
    lemma_record_line(name, n);
    assert(ls.push(record_line(name, n)).drop_last() =~= ls);
}

/// A record that has been written down is read back as it was.
pub proof fn record_reads_back(r: DiskMetaRecord)
    ensures
        record_in(record_text(r)) == Some(r),
{
    lemma_record_names();
    lemma_record_lines(r);
    let none = Seq::<Seq<char>>::empty();
    let l1 = record_line("expires_at"@, r.expires_at as nat);
    let l2 = record_line("last_access"@, r.last_access as nat);
    let l3 = record_line("size"@, r.size as nat);
    let d0 = Draft { expires_at: None, last_access: None, size: None };
    let d1 = Draft { expires_at: Some(r.expires_at as nat), ..d0 };
    let d2 = Draft { last_access: Some(r.last_access as nat), ..d1 };
    lemma_draft_push(none, d0, "expires_at"@, r.expires_at as nat);
    lemma_draft_push(none.push(l1), d1, "last_access"@, r.last_access as nat);
    lemma_draft_push(none.push(l1).push(l2), d2, "size"@, r.size as nat);
    assert(text::lines(record_text(r)) =~= none.push(l1).push(l2).push(l3));
}

// ---------------------------------------------------------------------------
// Asking for an object
// ---------------------------------------------------------------------------

/// What came of asking the index for an object.
#[derive(Clone, Copy, Debug, PartialEq, Eq, Structural)]
pub enum Lookup {
    /// The index does not know it.
    Absent,
    /// It is too old: its files are to be removed.
    Expired,
    /// It is there; what to write down of its use.
    Present(DiskMetaRecord),
}

/// Whether an object is too old.
pub open spec fn too_old(it: Item, now: u64, s: CacheSettings) -> bool {
    ||| it.expires_at == 0
    ||| now > it.expires_at
    ||| s.inactive_secs > 0 && index::inactive(it, now, s.inactive_secs)
}

/// What comes of asking for an object.
pub open spec fn lookup_result(v: IndexView, key: u64, now: u64, s: CacheSettings) -> Lookup {
    match index::item_at(v.items, key) {
        None => Lookup::Absent,
        Some(it) => if too_old(it, now, s) {
            Lookup::Expired
        } else {
            Lookup::Present(
                (DiskMetaRecord { expires_at: it.expires_at, last_access: now, size: it.size }),
            )
        },
    }
}

/// The index after it has been asked for an object.
pub open spec fn after_lookup(v: IndexView, key: u64, now: u64, s: CacheSettings) -> IndexView {
    match index::item_at(v.items, key) {
        None => v,
        Some(it) => if too_old(it, now, s) {
            index::removed(v, key)
        } else {
            index::touched(v, key, now)
        },
    }
}

/// The record with which an object is stored. Without a time to live, or
/// larger than the whole cache, it is not stored.
pub fn put_record(ttl_secs: u64, size: u64, now: u64, settings: CacheSettings) -> (r: Option<
    DiskMetaRecord,
>)
    ensures
        r == (if ttl_secs == 0 || (settings.max_total_bytes > 0 && size
            > settings.max_total_bytes) {
            None
        } else {
            Some(
                (DiskMetaRecord {
                    expires_at: now.saturating_add(ttl_secs),
                    last_access: now,
                    size,
                }),
            )
        }),
{
    if ttl_secs == 0 || (settings.max_total_bytes > 0 && size > settings.max_total_bytes) {
        return None;
    }
    Some(DiskMetaRecord { expires_at: now.saturating_add(ttl_secs), last_access: now, size })
}

/// The index after room has been made for an object.
pub open spec fn with_room(v: IndexView, key: u64, size: u64, now: u64, s: CacheSettings) -> IndexView {
    index::evicted_to_limits(
        index::evicted_inactive(index::removed(v, key), now, s.inactive_secs),
        s,
        size,
        1,
    )
}

/// Whether an object fits into the cache.
pub open spec fn fits(v: IndexView, size: u64, s: CacheSettings) -> bool {
    !index::exceeds(s, v.total_bytes.saturating_add(size) as int, v.items.len() as int + 1)
}

/// Appends keys to keys.
fn append_keys(out: &mut Vec<u64>, more: &Vec<u64>)
    ensures
        final(out)@ == old(out)@ + more@,
{
    let ghost start = out@;
    for i in 0..more.len()
        invariant
            out@ == start + more@.take(i as int),
    {
        out.push(more[i]);
    }
    assert(more@.take(more@.len() as int) =~= more@);
}

impl DiskCacheIndex {
    /// Asks for an object. One that is too old leaves the index; any other one
    /// counts as used.
    pub fn lookup(&mut self, key: u64, now: u64, settings: CacheSettings) -> (r: Lookup)
        requires
            old(self).wf(),
        ensures
            final(self).wf(),
            r == lookup_result(old(self)@, key, now, settings),
            final(self)@ == after_lookup(old(self)@, key, now, settings),
    {
        match self.get(key) {
            None => Lookup::Absent,
            Some(it) => {
                let old_age = it.expires_at == 0 || now > it.expires_at || (settings.inactive_secs
                    > 0 && now > it.last_access && now - it.last_access > settings.inactive_secs);
                if old_age {
                    let _ = self.remove(key);
                    Lookup::Expired
                } else {
                    match self.touch(key, now) {
                        Some(record) => Lookup::Present(record),
                        None => Lookup::Absent,
                    }
                }
            },
        }
    }

    /// Makes room for an object: forgets an older one with the same key and
    /// evicts others. Returns the keys of those evicted and whether the object
    /// fits now.
    pub fn make_room(&mut self, key: u64, size: u64, now: u64, settings: CacheSettings) -> (r: (
        Vec<u64>,
        bool,
    ))
        requires
            old(self).wf(),
        ensures
            final(self).wf(),
            final(self)@ == with_room(old(self)@, key, size, now, settings),
            r.1 == fits(final(self)@, size, settings),
            ({
                let before = index::removed(old(self)@, key).items;
                let n = before.len() - final(self)@.items.len();
                0 <= n && final(self)@.items == before.skip(n) && r.0@ == index::keys_of(
                    before.take(n),
                )
            }),
    {
        let _ = self.remove(key);
        let ghost v1 = self@;
        let mut evicted = self.evict_inactive(now, settings.inactive_secs);
        let ghost v2 = self@;
        let more = self.evict_for_one(settings, size);
        let ghost v3 = self@;
        append_keys(&mut evicted, &more);
        proof {
            index::eviction_takes_the_oldest(v2, settings, size, 1);
            let n2 = v1.items.len() - v2.items.len();
            let n3 = v2.items.len() - v3.items.len();
            assert(v3.items =~= v1.items.skip(n2 + n3));
            assert(evicted@ =~= index::keys_of(v1.items.take(n2 + n3))) by {
                assert(v1.items.take(n2 + n3) =~= v1.items.take(n2) + v2.items.take(n3));
            }
        }
        let len: usize = self.len();
        let over = (settings.max_total_bytes > 0 && self.total_bytes().saturating_add(size)
            > settings.max_total_bytes) || (settings.max_entries > 0 && len
            >= settings.max_entries);
        (evicted, !over)
    }
}

/// How often an object was found on disk, and how often it was not.
#[derive(Clone, Copy, Debug, PartialEq, Eq, Structural)]
pub struct DiskCounters {
    /// How often it was found.
    pub hits: u64,
    /// How often it was not.
    pub misses: u64,
}

/// The counters after an object has been asked for. It was found only where the
/// index knows it and its data could be read.
pub open spec fn counted(c: DiskCounters, found: Lookup, readable: bool) -> DiskCounters {
    if found is Present && readable {
        DiskCounters { hits: c.hits.wrapping_add(1), ..c }
    } else {
        DiskCounters { misses: c.misses.wrapping_add(1), ..c }
    }
}

impl DiskCounters {
    /// Counters that have counted nothing.
    pub fn new() -> (r: Self)
        ensures
            r == (DiskCounters { hits: 0, misses: 0 }),
    {
        DiskCounters { hits: 0, misses: 0 }
    }

    /// Counts that an object has been asked for, given what the index said and
    /// whether its data could be read.
    pub fn count(self, found: Lookup, readable: bool) -> (r: Self)
        ensures
            r == counted(self, found, readable),
    {
        match found {
            Lookup::Present(_) if readable => DiskCounters {
                hits: self.hits.wrapping_add(1),
                misses: self.misses,
            },
            _ => DiskCounters { hits: self.hits, misses: self.misses.wrapping_add(1) },
        }
    }
}

/// The object that is stored with a record.
pub open spec fn item_with(key: u64, r: DiskMetaRecord) -> Item {
    Item { key, size: r.size, expires_at: r.expires_at, last_access: r.last_access }
}

/// Adds an object with its record to the index.
pub fn insert_record(index: &mut DiskCacheIndex, key: u64, record: &DiskMetaRecord)
    requires
        old(index).wf(),
    ensures
        final(index).wf(),
        final(index)@ == index::inserted(old(index)@, item_with(key, *record)),
{
    index.insert(
        Item {
            key,
            size: record.size,
            expires_at: record.expires_at,
            last_access: record.last_access,
        },
    );
}

// ---------------------------------------------------------------------------
// Reading the directory
// ---------------------------------------------------------------------------

/// What was found of an object in the cache directory.
#[derive(Debug)]
pub struct Listed {
    /// The key in the name of its record.
    pub key: u64,
    /// The bytes of its record, if they could be read.
    pub meta: Option<Vec<u8>>,
    /// The size of its data, if it is there.
    pub data_len: Option<u64>,
}

/// The same, as bytes.
pub struct ListedView {
    pub key: u64,
    pub meta: Option<Seq<u8>>,
    pub data_len: Option<u64>,
}

impl DeepView for Listed {
    type V = ListedView;

    open spec fn deep_view(&self) -> ListedView {
        ListedView {
            key: self.key,
            meta: match self.meta {
                Some(b) => Some(b@),
                None => None,
            },
            data_len: self.data_len,
        }
    }
}

/// The record of a listed object.
pub open spec fn listed_record(l: ListedView) -> Option<DiskMetaRecord> {
    match l.meta {
        Some(b) => if valid_utf8(b) {
            record_in(decode_utf8(b))
        } else {
            None
        },
        None => None,
    }
}

/// The object that a listed one is taken for; none where it is stale.
pub open spec fn admitted(l: ListedView, now: u64, s: CacheSettings) -> Option<Item> {
    match listed_record(l) {
        None => None,
        Some(r) => if too_old(item_with(l.key, r), now, s) {
            None
        } else {
            match l.data_len {
                None => None,
                Some(n) => {
                    let size = if r.size == 0 {
                        n
                    } else {
                        r.size
                    };
                    if s.max_total_bytes > 0 && size > s.max_total_bytes {
                        None
                    } else {
                        Some((Item { size, ..item_with(l.key, r) }))
                    }
                },
            }
        },
    }
}

/// The objects among the listed ones, in order.
pub open spec fn admitted_all(ls: Seq<ListedView>, now: u64, s: CacheSettings) -> Seq<Item>
    decreases ls.len(),
{
    if ls.len() == 0 {
        seq![]
    } else {
        match admitted(ls.last(), now, s) {
            Some(it) => admitted_all(ls.drop_last(), now, s).push(it),
            None => admitted_all(ls.drop_last(), now, s),
        }
    }
}

/// The keys of the stale ones among the listed objects, in order.
pub open spec fn stale_keys(ls: Seq<ListedView>, now: u64, s: CacheSettings) -> Seq<u64>
    decreases ls.len(),
{
    if ls.len() == 0 {
        seq![]
    } else if admitted(ls.last(), now, s) is None {
        stale_keys(ls.drop_last(), now, s).push(ls.last().key)
    } else {
        stale_keys(ls.drop_last(), now, s)
    }
}

/// Objects in the order of their last use with one more put in its place,
/// behind those with the same time.
pub open spec fn placed(items: Seq<Item>, it: Item) -> Seq<Item>
    decreases items.len(),
{
    if items.len() == 0 || items.last().last_access <= it.last_access {
        items.push(it)
    } else {
        placed(items.drop_last(), it).push(items.last())
    }
}

/// Objects put in the order of their last use.
pub open spec fn by_last_access(items: Seq<Item>) -> Seq<Item>
    decreases items.len(),
{
    if items.len() == 0 {
        seq![]
    } else {
        placed(by_last_access(items.drop_last()), items.last())
    }
}

/// The index after objects have come into it one by one.
pub open spec fn all_inserted(v: IndexView, items: Seq<Item>) -> IndexView
    decreases items.len(),
{
    if items.len() == 0 {
        v
    } else {
        index::inserted(all_inserted(v, items.drop_last()), items.last())
    }
}

/// The index after the directory has been read and before anything has been
/// evicted.
pub open spec fn filled(v: IndexView, ls: Seq<ListedView>, now: u64, s: CacheSettings) -> IndexView {
    all_inserted(
        (IndexView { items: Seq::empty(), total_bytes: 0, loaded: true, ..v }),
        by_last_access(admitted_all(ls, now, s)),
    )
}

/// Decides what a listed object is taken for.
fn take_listed(l: &Listed, now: u64, settings: CacheSettings) -> (r: Option<Item>)
    ensures
        r == admitted(l.deep_view(), now, settings),
{
    let record = match &l.meta {
        Some(b) => match strict(b.as_slice()) {
            Some(s) => parse_meta_record(s.as_str()),
            None => None,
        },
        None => None,
    };
    match record {
        None => None,
        Some(m) => {
            if m.expires_at == 0 || now > m.expires_at || (settings.inactive_secs > 0 && now
                > m.last_access && now - m.last_access > settings.inactive_secs) {
                return None;
            }
            let n: u64 = match l.data_len {
                Some(n) => n,
                None => {
                    return None;
                },
            };
            let size: u64 = if m.size == 0 {
                n
            } else {
                m.size
            };
            if settings.max_total_bytes > 0 && size > settings.max_total_bytes {
                return None;
            }
            Some(
                Item {
                    key: l.key,
                    size,
                    expires_at: m.expires_at,
                    last_access: m.last_access,
                },
            )
        },
    }
}

proof fn lemma_placed(items: Seq<Item>, it: Item, p: int)
    requires
        0 <= p <= items.len(),
        forall|j: int| p <= j < items.len() ==> (#[trigger] items[j]).last_access > it.last_access,
        p > 0 ==> items[p - 1].last_access <= it.last_access,
    ensures
        placed(items, it) == items.insert(p, it),
    decreases items.len(),
{
    if p == items.len() {
        assert(items.insert(p, it) =~= items.push(it));
    } else {
        lemma_placed(items.drop_last(), it, p);
        assert(items.drop_last().insert(p, it).push(items.last()) =~= items.insert(p, it));
    }
}

/// Puts an object in its place among others.
fn place(items: &mut Vec<Item>, it: Item)
    ensures
        final(items)@ == placed(old(items)@, it),
{
    let mut p: usize = items.len();
    while p > 0 && items[p - 1].last_access > it.last_access
        invariant
            p <= items@.len(),
            forall|j: int|
                p <= j < items@.len() ==> (#[trigger] items@[j]).last_access > it.last_access,
        decreases p,
    {
        p = p - 1;
    }
    proof {
        lemma_placed(items@, it, p as int);
    }
    items.insert(p, it);
}

impl DiskCacheIndex {
    /// Takes in what was found in the cache directory, in place of what was
    /// known before. Returns the keys of the objects whose files are to be
    /// removed: the stale ones, and those evicted to keep the limits.
    pub fn load(&mut self, listing: &Vec<Listed>, now: u64, settings: CacheSettings) -> (r: Vec<u64>)
        requires
            old(self).wf(),
        ensures
            final(self).wf(),
            ({
                let ls = listing.deep_view();
                let full = filled(old(self)@, ls, now, settings);
                let kept = index::evicted_to_limits(full, settings, 0, 0);
                &&& final(self)@ == kept
                &&& r@ == stale_keys(ls, now, settings) + index::keys_of(
                    full.items.take(full.items.len() - kept.items.len()),
                )
            }),
    {
        let ghost start = self@;
        let ghost all = listing.deep_view();
        let mut stale: Vec<u64> = Vec::new();
        let mut sorted: Vec<Item> = Vec::new();
        assert(all.take(0) =~= seq![]);
        for i in 0..listing.len()
            invariant
                all == listing.deep_view(),
                stale@ == stale_keys(all.take(i as int), now, settings),
                sorted@ == by_last_access(admitted_all(all.take(i as int), now, settings)),
        {
            assert(all.take(i + 1).drop_last() =~= all.take(i as int));
            assert(all.take(i + 1).last() == listing@[i as int].deep_view());
            match take_listed(&listing[i], now, settings) {
                Some(it) => {
                    let ghost before = admitted_all(all.take(i as int), now, settings);
                    assert(before.push(it).drop_last() =~= before);
                    place(&mut sorted, it);
                },
                None => {
                    stale.push(listing[i].key);
                },
            }
        }
        assert(all.take(listing@.len() as int) =~= all);
        self.start_loading();
        let ghost empty = self@;
        assert(sorted@.take(0) =~= seq![]);
        for i in 0..sorted.len()
            invariant
                self.wf(),
                self@ == all_inserted(empty, sorted@.take(i as int)),
        {
            assert(sorted@.take(i + 1).drop_last() =~= sorted@.take(i as int));
            self.insert(sorted[i]);
        }
        assert(sorted@.take(sorted@.len() as int) =~= sorted@);
        let evicted = self.evict_to_limits(settings);
        append_keys(&mut stale, &evicted);
        stale
    }
}

// ---------------------------------------------------------------------------
// What the disk cache keeps
// ---------------------------------------------------------------------------

proof fn lemma_item_pushed(items: Seq<Item>, it: Item)
    requires
        index::item_at(items, it.key) is None,
    ensures
        index::item_at(items.push(it), it.key) == Some(it),
    decreases items.len(),
{
    if items.len() == 0 {
        assert(items.push(it)[0] == it);
    } else {
        assert(items.push(it).drop_first() =~= items.drop_first().push(it));
        lemma_item_pushed(items.drop_first(), it);
    }
}

/// What has been stored is found again, until it expires or has not been used
/// for too long.
pub proof fn stored_object_is_found(
    v: IndexView,
    key: u64,
    r: DiskMetaRecord,
    now: u64,
    s: CacheSettings,
)
    requires
        index::keys_distinct(v.items),
        0 < r.expires_at,
        now <= r.expires_at,
        s.inactive_secs == 0 || now - r.last_access <= s.inactive_secs,
    ensures
        lookup_result(index::inserted(v, item_with(key, r)), key, now, s) == Lookup::Present(
            (DiskMetaRecord { last_access: now, ..r }),
        ),
{
    let it = item_with(key, r);
    index::lemma_removed_is_absent(v, key);
    lemma_item_pushed(index::removed(v, key).items, it);
}

/// An object that fits after room has been made for it does not lead the cache
/// over its limits.
pub proof fn stored_object_keeps_the_limits(
    v: IndexView,
    key: u64,
    r: DiskMetaRecord,
    now: u64,
    s: CacheSettings,
)
    requires
        index::keys_distinct(v.items),
        fits(with_room(v, key, r.size, now, s), r.size, s),
    ensures
        ({
            let w = index::inserted(with_room(v, key, r.size, now, s), item_with(key, r));
            !index::exceeds(s, w.total_bytes as int, w.items.len() as int)
        }),
{
    let gone = index::removed(v, key);
    index::lemma_removed_is_absent(v, key);
    let active = index::evicted_inactive(gone, now, s.inactive_secs);
    index::lemma_evicted_inactive_absent(gone, now, s.inactive_secs, key);
    let room = with_room(v, key, r.size, now, s);
    index::lemma_evicted_absent(active, s, r.size, 1, key);
    assert(index::item_at(room.items, key) is None);
}

// ---------------------------------------------------------------------------
// What the files tell, and what is done with the objects
// ---------------------------------------------------------------------------

/// The files of an object have the sixteen hexadecimal digits of its key in their
/// names, and tell objects apart. A name that does not end as that of a record
/// gives no key.
pub proof fn files_go_by_the_key(key: u64, other: u64, name: Seq<char>)
    ensures
        data_name(key) == number::hex_digits(key as nat, 16) + seq!['.', 'c', 'a', 'c', 'h', 'e'],
        meta_name(key) == number::hex_digits(key as nat, 16) + seq!['.', 'm', 'e', 't', 'a'],
        data_name(key) == data_name(other) ==> key == other,
        meta_name(key) == meta_name(other) ==> key == other,
        (name.len() < 5 || name.skip(name.len() - 5) != seq!['.', 'm', 'e', 't', 'a'])
            ==> key_in_name(name) is None,
        key_in_name(name + seq!['.', 'm', 'e', 't', 'a']) == number::parsed_number(
            name,
            16,
            u64::MAX as nat,
        ),
{
    reveal_strlit(".cache");
    reveal_strlit(".meta");
    assert(".cache"@ =~= seq!['.', 'c', 'a', 'c', 'h', 'e']);
    assert(".meta"@ =~= seq!['.', 'm', 'e', 't', 'a']);
    key_reads_back(key);
    key_reads_back(other);
    let (a, b) = (number::hex_digits(key as nat, 16), number::hex_digits(other as nat, 16));
    if data_name(key) == data_name(other) {
        assert(data_name(key).len() == data_name(other).len());
        assert(a =~= data_name(key).take(a.len() as int));
        assert(b =~= data_name(other).take(a.len() as int));
        assert(meta_name(key) == meta_name(other));
    }
    let whole = name + ".meta"@;
    assert(whole.skip(whole.len() - 5) =~= ".meta"@);
    assert(whole.take(whole.len() - 5) =~= name);
}

/// A record that is a number alone tells the end of the life of its object, and so
/// does one that gives that value alone: it counts as the last use, and the size
/// is not known.
pub proof fn short_records_are_read(n: u64)
    ensures
        record_in(number::decimal(n as nat)) == Some(
            (DiskMetaRecord { expires_at: n, last_access: n, size: 0 }),
        ),
        record_in("expires_at"@ + seq!['='] + number::decimal(n as nat) + seq!['\n']) == Some(
            (DiskMetaRecord { expires_at: n, last_access: n, size: 0 }),
        ),
{
    lemma_record_names();
    let d = number::decimal(n as nat);
    lemma_record_line("expires_at"@, n as nat);
    let line = record_line("expires_at"@, n as nat);
    let whole = line + seq!['\n'];
    let none = Seq::<Seq<char>>::empty();
    assert(whole =~= line + seq!['\n'] + Seq::<char>::empty());
    lemma_lines_cons(line, Seq::<char>::empty());
    assert(text::lines(whole) =~= none.push(line));
    let d0 = Draft { expires_at: None, last_access: None, size: None };
    lemma_draft_push(none, d0, "expires_at"@, n as nat);
    assert(whole[0] == 'e');
    lemma_trim_keeps_first(whole);
    assert(!number::is_digit(text::trimmed(whole)[0], 10));
}

/// A record that does not give the end of the life of its object, or that has a
/// line with no value, is none.
pub proof fn records_without_an_end_are_refused(name: Seq<char>, n: u64, line: Seq<char>)
    requires
        name == "last_access"@ || name == "size"@,
        line.len() > 0,
        !line.contains('\n'),
        !line.contains('='),
        !text::is_white(line[0]),
        !text::is_white(line.last()),
        !('0' <= line[0] <= '9'),
        line[0] != '+',
    ensures
        record_in(name + seq!['='] + number::decimal(n as nat) + seq!['\n']) is None,
        record_in(line) is None,
        record_in(seq![]) is None,
{
    lemma_record_names();
    reveal_strlit("last_access");
    reveal_strlit("size");
    lemma_record_line(name, n as nat);
    let whole = record_line(name, n as nat) + seq!['\n'];
    let none = Seq::<Seq<char>>::empty();
    assert(whole =~= record_line(name, n as nat) + seq!['\n'] + Seq::<char>::empty());
    lemma_lines_cons(record_line(name, n as nat), Seq::<char>::empty());
    assert(text::lines(whole) =~= none.push(record_line(name, n as nat)));
    let d0 = Draft { expires_at: None, last_access: None, size: None };
    lemma_draft_push(none, d0, name, n as nat);
    assert(whole[0] == name[0]);
    lemma_trim_keeps_first(whole);
    assert(!number::is_digit(text::trimmed(whole)[0], 10));
    text::lemma_trim_nothing(line);
    assert(!number::is_digit(line[0], 10));
    assert forall|j: int| 0 <= j < line.len() implies line[j] != '\n' && line[j] != '=' by {
        assert(line.contains(line[j]));
    }
    text::lemma_first_pos(line, '\n', line.len() as int);
    text::lemma_first_pos(line, '=', line.len() as int);
    assert(line.take(line.len() as int) =~= line);
    assert(line.last() != '\r');
    assert(text::lines(line) =~= none.push(line));
    assert(none.push(line).drop_last() =~= none);
    let e = Seq::<char>::empty();
    assert(text::trimmed(e) =~= e);
    assert(text::lines(e) =~= none);
}

/// Whether an object is still good: its life is not over, and it was used in time
/// where a limit on idle time is set.
pub open spec fn still_good(it: Item, now: u64, s: CacheSettings) -> bool {
    &&& 0 < it.expires_at
    &&& now <= it.expires_at
    &&& s.inactive_secs == 0 || now <= it.last_access + s.inactive_secs
}

/// An object that is still good is found, and counts as used now; one that is not
/// leaves. An unknown key finds nothing.
pub proof fn good_objects_are_found(v: IndexView, p: int, key: u64, now: u64, s: CacheSettings)
    requires
        index::keys_distinct(v.items),
        0 <= p < v.items.len(),
        v.items[p].size <= v.total_bytes,
    ensures
        ({
            let it = v.items[p];
            let others = v.items.take(p) + v.items.skip(p + 1);
            let after = after_lookup(v, it.key, now, s);
            &&& still_good(it, now, s) ==> lookup_result(v, it.key, now, s) == Lookup::Present(
                (DiskMetaRecord { expires_at: it.expires_at, last_access: now, size: it.size }),
            ) && after.items == others.push((Item { last_access: now, ..it })) && after.total_bytes
                == v.total_bytes
            &&& !still_good(it, now, s) ==> lookup_result(v, it.key, now, s) == Lookup::Expired
                && after.items == others && after.total_bytes == v.total_bytes - it.size
        }),
        (forall|i: int| 0 <= i < v.items.len() ==> (#[trigger] v.items[i]).key != key)
            ==> lookup_result(v, key, now, s) == Lookup::Absent && after_lookup(v, key, now, s) == v,
{
    index::objects_go_by_their_keys(v, p, now);
    let it = v.items[p];
    let used = index::touched(v, it.key, now);
    assert(used.items =~= used.items.drop_last().push(used.items.last()));
    if forall|i: int| 0 <= i < v.items.len() ==> (#[trigger] v.items[i]).key != key {
        index::unknown_keys_find_nothing(v, key, now);
    }
}

/// A search counts as a hit where the object was found and could be read, and as a
/// miss otherwise.
pub proof fn searches_on_disk_are_counted(c: DiskCounters, r: DiskMetaRecord, readable: bool)
    ensures
        counted(c, Lookup::Present(r), true).hits == c.hits.wrapping_add(1),
        counted(c, Lookup::Present(r), true).misses == c.misses,
        counted(c, Lookup::Present(r), false).hits == c.hits,
        counted(c, Lookup::Present(r), false).misses == c.misses.wrapping_add(1),
        counted(c, Lookup::Absent, readable).hits == c.hits,
        counted(c, Lookup::Absent, readable).misses == c.misses.wrapping_add(1),
        counted(c, Lookup::Expired, readable).hits == c.hits,
        counted(c, Lookup::Expired, readable).misses == c.misses.wrapping_add(1),
{
}

/// An object in the directory is taken up if its record can be read, its data is
/// there, it is still good and not larger than all objects may be together. Its
/// size is the one in the record, or that of the data where the record has none.
pub proof fn good_objects_are_taken_up(
    key: u64,
    r: DiskMetaRecord,
    data_len: u64,
    now: u64,
    s: CacheSettings,
)
    ensures
        ({
            let l = ListedView {
                key,
                meta: Some(encode_utf8(record_text(r))),
                data_len: Some(data_len),
            };
            let size = if r.size == 0 {
                data_len
            } else {
                r.size
            };
            let it = Item { key, size, expires_at: r.expires_at, last_access: r.last_access };
            let good = still_good(it, now, s) && (s.max_total_bytes == 0 || size <= s.max_total_bytes);
            &&& good ==> admitted(l, now, s) == Some(it)
            &&& !good ==> admitted(l, now, s) is None
            &&& admitted((ListedView { data_len: None, ..l }), now, s) is None
            &&& admitted((ListedView { meta: None, ..l }), now, s) is None
        }),
{
    let t = record_text(r);
    record_reads_back(r);
    encode_utf8_valid_utf8(t);
    encode_utf8_decode_utf8(t);
}

/// Of the objects in the directory, those that are not taken up are to be removed,
/// and no others.
pub proof fn directory_is_sorted_out(ls: Seq<ListedView>, now: u64, s: CacheSettings)
    ensures
        admitted_all(ls, now, s) == ls.filter(|l: ListedView| admitted(l, now, s) is Some).map_values(
            |l: ListedView| admitted(l, now, s)->0,
        ),
        stale_keys(ls, now, s) == ls.filter(|l: ListedView| admitted(l, now, s) is None).map_values(
            |l: ListedView| l.key,
        ),
    decreases ls.len(),
{
    reveal(Seq::filter);
    let good = |l: ListedView| admitted(l, now, s) is Some;
    let bad = |l: ListedView| admitted(l, now, s) is None;
    let item = |l: ListedView| admitted(l, now, s)->0;
    let key = |l: ListedView| l.key;
    if ls.len() > 0 {
        directory_is_sorted_out(ls.drop_last(), now, s);
        let rest = ls.drop_last();
        assert(rest.filter(good).push(ls.last()).map_values(item) =~= rest.filter(good).map_values(
            item,
        ).push(item(ls.last())));
        assert(rest.filter(bad).push(ls.last()).map_values(key) =~= rest.filter(bad).map_values(
            key,
        ).push(key(ls.last())));
    } else {
        assert(admitted_all(ls, now, s) =~= ls.filter(good).map_values(item));
        assert(stale_keys(ls, now, s) =~= ls.filter(bad).map_values(key));
    }
}

proof fn lemma_placed_sorted(items: Seq<Item>, it: Item)
    requires
        forall|i: int, j: int|
            0 <= i < j < items.len() ==> (#[trigger] items[i]).last_access <= (#[trigger] items[j]).last_access,
    ensures
        ({
            let all = placed(items, it);
            &&& all.len() == items.len() + 1
            &&& forall|i: int, j: int|
                0 <= i < j < all.len() ==> (#[trigger] all[i]).last_access <= (#[trigger] all[j]).last_access
            &&& all.to_multiset() == items.to_multiset().insert(it)
            &&& forall|i: int|
                0 <= i < all.len() ==> (#[trigger] all[i]).last_access <= it.last_access || all[i].last_access
                    <= items.last().last_access
        }),
    decreases items.len(),
{
    broadcast use vstd::seq_lib::group_to_multiset_ensures;
    let all = placed(items, it);
    if items.len() == 0 || items.last().last_access <= it.last_access {
        assert forall|i: int| 0 <= i < items.len() implies (#[trigger] items[i]).last_access
            <= it.last_access by {
            if i < items.len() - 1 {
                assert(items[i].last_access <= items[items.len() - 1].last_access);
            }
        }
    } else {
        let rest = items.drop_last();
        assert forall|i: int, j: int| 0 <= i < j < rest.len() implies (#[trigger] rest[i]).last_access <= (
        #[trigger] rest[j]).last_access by {
            assert(rest[i] == items[i]);
            assert(rest[j] == items[j]);
        }
        lemma_placed_sorted(rest, it);
        let most = placed(rest, it);
        assert(items =~= rest.push(items.last()));
        assert(most.push(items.last()).to_multiset() =~= items.to_multiset().insert(it));
        assert forall|i: int| 0 <= i < most.len() implies (#[trigger] most[i]).last_access
            <= items.last().last_access by {
            if rest.len() > 0 {
                assert(rest.last() == items[items.len() - 2]);
                assert(items[items.len() - 2].last_access <= items[items.len() - 1].last_access);
            } else {
                assert(most =~= seq![it]);
            }
        }
    }
}

/// The objects of the directory are put in the order of their last use, and none
/// of them is lost or comes twice.
pub proof fn objects_are_put_in_order(items: Seq<Item>)
    ensures
        by_last_access(items).to_multiset() == items.to_multiset(),
        forall|i: int, j: int|
            0 <= i < j < items.len() ==> (#[trigger] by_last_access(items)[i]).last_access <= (
            #[trigger] by_last_access(items)[j]).last_access,
        by_last_access(items).len() == items.len(),
    decreases items.len(),
{
    broadcast use vstd::seq_lib::group_to_multiset_ensures;
    if items.len() > 0 {
        let rest = items.drop_last();
        objects_are_put_in_order(rest);
        lemma_placed_sorted(by_last_access(rest), items.last());
        assert(items =~= rest.push(items.last()));
    } else {
        assert(by_last_access(items) =~= items);
    }
}

/// The objects that are taken up stand in the index in their order, and their bytes
/// count. What the index counted before stays counted.
pub proof fn index_is_filled_in_order(v: IndexView, items: Seq<Item>)
    requires
        v.items.len() == 0,
        v.total_bytes == 0,
        index::keys_distinct(items),
        index::sum_of_sizes(items) <= u64::MAX,
    ensures
        all_inserted(v, items).items == items,
        all_inserted(v, items).total_bytes == index::sum_of_sizes(items),
        all_inserted(v, items).evictions == v.evictions,
        all_inserted(v, items).evicted_bytes == v.evicted_bytes,
        all_inserted(v, items).loaded == v.loaded,
        all_inserted(v, items).cache_dir == v.cache_dir,
    decreases items.len(),
{
    if items.len() > 0 {
        let rest = items.drop_last();
        assert forall|i: int, j: int| 0 <= i < j < rest.len() implies (#[trigger] rest[i]).key != (
        #[trigger] rest[j]).key by {
            assert(rest[i] == items[i]);
            assert(rest[j] == items[j]);
        }
        index_is_filled_in_order(v, rest);
        let w = all_inserted(v, rest);
        assert forall|i: int| 0 <= i < w.items.len() implies (#[trigger] w.items[i]).key
            != items.last().key by {
            assert(items[i].key != items[items.len() - 1].key);
        }
        index::new_objects_come_last(w, items.last(), 0);
        assert(rest.push(items.last()) =~= items);
    } else {
        assert(all_inserted(v, items).items =~= items);
    }
}

/// Where a new object keeps to the limits beside the others, no other leaves for
/// it; an object fits where it keeps to the limits beside those that stay.
pub proof fn room_is_not_made_in_vain(v: IndexView, key: u64, size: u64, now: u64, s: CacheSettings)
    requires
        v.total_bytes + size <= u64::MAX,
    ensures
        fits(v, size, s) == ((s.max_total_bytes == 0 || v.total_bytes + size <= s.max_total_bytes) && (
        s.max_entries == 0 || v.items.len() + 1 <= s.max_entries)),
        (s.max_total_bytes == 0 || v.total_bytes + size <= s.max_total_bytes) && (s.max_entries == 0
            || v.items.len() + 1 <= s.max_entries) && s.inactive_secs == 0 && (forall|i: int|
            0 <= i < v.items.len() ==> (#[trigger] v.items[i]).key != key) ==> with_room(
            v,
            key,
            size,
            now,
            s,
        ) == v,
{
    if forall|i: int| 0 <= i < v.items.len() ==> (#[trigger] v.items[i]).key != key {
        index::unknown_keys_find_nothing(v, key, now);
    }
}

/// Room for a new object is made by taking away the others from the front, as long
/// as they and the new one are over a limit, and no longer.
pub proof fn room_is_made_from_the_front(
    v: IndexView,
    key: u64,
    size: u64,
    now: u64,
    s: CacheSettings,
)
    requires
        index::counts_exactly(v),
        v.total_bytes + size <= u64::MAX,
        s.inactive_secs == 0,
        forall|i: int| 0 <= i < v.items.len() ==> (#[trigger] v.items[i]).key != key,
    ensures
        ({
            let w = with_room(v, key, size, now, s);
            let n = v.items.len() - w.items.len();
            &&& 0 <= n <= v.items.len()
            &&& w.items == v.items.skip(n)
            &&& forall|j: int| 0 <= j < n ==> #[trigger] index::rest_is_over(v.items, j, s, size, 1)
            &&& w.items.len() > 0 ==> !index::rest_is_over(v.items, n, s, size, 1)
        }),
{
    index::unknown_keys_find_nothing(v, key, now);
    index::eviction_stops_in_time(v, s, size, 1);
    index::eviction_takes_the_oldest(v, s, size, 1);
    let w = with_room(v, key, size, now, s);
    let n = v.items.len() - w.items.len();
    assert(w == index::evicted_to_limits(v, s, size, 1));
    assert(index::sum_of_sizes(v.items.skip(n)) == w.total_bytes);
}

} // verus!
