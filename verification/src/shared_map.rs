//! Concurrent maps by name.
//!
//! The maps are those of the `dashmap` crate. A map holds at most one value
//! under a key, and gives back under a key what was last put there. Whoever
//! works on one here has it to themselves, through an exclusive reference, so
//! that nothing else changes it in between.
use dashmap::DashMap;
use vstd::prelude::*;

verus! {

/// The map of the `dashmap` crate, taken as it is.
#[verifier::external_type_specification]
#[verifier::external_body]
#[verifier::reject_recursive_types(K)]
#[verifier::reject_recursive_types(V)]
#[verifier::reject_recursive_types(S)]
pub struct ExDashMap<K, V, S>(DashMap<K, V, S>);

/// What a map of counters holds.
pub uninterp spec fn counts_of(m: DashMap<String, usize>) -> Map<Seq<char>, usize>;

/// What a map of connection lists holds: the number and the time of last use
/// of each connection.
pub uninterp spec fn lists_of(m: DashMap<String, Vec<(u64, u64)>>) -> Map<Seq<char>, Seq<(u64, u64)>>;

/// What a map of failure marks holds: the count of failures and, where there
/// is one, the end of the pause.
pub uninterp spec fn marks_of(m: DashMap<String, (u32, Option<u128>)>) -> Map<
    Seq<char>,
    (u32, Option<u128>),
>;

/// What a map of stored responses holds.
pub uninterp spec fn bodies_of(m: DashMap<String, Vec<u8>>) -> Map<Seq<char>, Seq<u8>>;

/// `DashMap::new` gives an empty map.
#[verifier::external_body]
pub(crate) fn counts_new() -> (r: DashMap<String, usize>)
    ensures
        counts_of(r).dom() == Set::<Seq<char>>::empty(),
{
    DashMap::new()
}

/// `DashMap::get` gives what is under the key, if there is anything.
#[verifier::external_body]
pub(crate) fn counts_get(m: &DashMap<String, usize>, key: &str) -> (r: Option<usize>)
    ensures
        match r {
            Some(v) => counts_of(*m).contains_key(key@) && counts_of(*m)[key@] == v,
            None => !counts_of(*m).contains_key(key@),
        },
{
    m.get(key).map(|e| *e.value())
}

/// `DashMap::insert` puts the value under the key in place of what was there.
#[verifier::external_body]
pub(crate) fn counts_insert(m: &mut DashMap<String, usize>, key: String, value: usize)
    ensures
        counts_of(*final(m)) == counts_of(*old(m)).insert(key@, value),
{
    m.insert(key, value);
}

/// `DashMap::new` gives an empty map.
#[verifier::external_body]
pub(crate) fn lists_new() -> (r: DashMap<String, Vec<(u64, u64)>>)
    ensures
        lists_of(r).dom() == Set::<Seq<char>>::empty(),
{
    DashMap::new()
}

/// `DashMap::remove` takes out what is under the key and returns it, if there
/// is anything.
#[verifier::external_body]
pub(crate) fn lists_remove(m: &mut DashMap<String, Vec<(u64, u64)>>, key: &str) -> (r: Option<
    Vec<(u64, u64)>,
>)
    ensures
        match r {
            Some(v) => lists_of(*old(m)).contains_key(key@) && lists_of(*old(m))[key@] == v@,
            None => !lists_of(*old(m)).contains_key(key@),
        },
        lists_of(*final(m)) == lists_of(*old(m)).remove(key@),
{
    m.remove(key).map(|p| p.1)
}

/// `DashMap::insert` puts the value under the key in place of what was there.
#[verifier::external_body]
pub(crate) fn lists_insert(
    m: &mut DashMap<String, Vec<(u64, u64)>>,
    key: String,
    value: Vec<(u64, u64)>,
)
    ensures
        lists_of(*final(m)) == lists_of(*old(m)).insert(key@, value@),
{
    m.insert(key, value);
}

/// `DashMap::new` gives an empty map.
#[verifier::external_body]
pub(crate) fn marks_new() -> (r: DashMap<String, (u32, Option<u128>)>)
    ensures
        marks_of(r).dom() == Set::<Seq<char>>::empty(),
{
    DashMap::new()
}

/// `DashMap::get` gives what is under the key, if there is anything.
#[verifier::external_body]
pub(crate) fn marks_get(m: &DashMap<String, (u32, Option<u128>)>, key: &str) -> (r: Option<
    (u32, Option<u128>),
>)
    ensures
        match r {
            Some(v) => marks_of(*m).contains_key(key@) && marks_of(*m)[key@] == v,
            None => !marks_of(*m).contains_key(key@),
        },
{
    m.get(key).map(|e| *e.value())
}

/// `DashMap::insert` puts the value under the key in place of what was there.
#[verifier::external_body]
pub(crate) fn marks_insert(
    m: &mut DashMap<String, (u32, Option<u128>)>,
    key: String,
    value: (u32, Option<u128>),
)
    ensures
        marks_of(*final(m)) == marks_of(*old(m)).insert(key@, value),
{
    m.insert(key, value);
}

/// `DashMap::new` gives an empty map.
#[verifier::external_body]
pub(crate) fn bodies_new() -> (r: DashMap<String, Vec<u8>>)
    ensures
        bodies_of(r).dom() == Set::<Seq<char>>::empty(),
{
    DashMap::new()
}

} // verus!
