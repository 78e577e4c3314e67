//! Reverse proxying: choosing an upstream, forwarding the request and passing
//! the response on.
use crate::shared_map::{self, counts_new, lists_new, marks_new};
use dashmap::DashMap;
use vstd::prelude::*;

pub mod bounded;
pub mod buffered;
pub mod headers;
pub mod health;
pub mod measured;
pub mod path;
pub mod pool;
pub mod response;
pub mod serve;
pub mod upstream;

verus! {

/// What the proxy remembers from one request to the next.
pub struct Proxy {
    /// By upstream: how often it has been asked.
    pub rr_counters: DashMap<String, usize>,
    /// By upstream address: the idle connections, each with its number and the
    /// time of its last use.
    pub pools: DashMap<String, Vec<(u64, u64)>>,
    /// By upstream and address: the failures in a row and the end of the
    /// pause.
    pub health: DashMap<String, (u32, Option<u128>)>,
}

impl Proxy {
    /// A proxy that remembers nothing.
    pub fn new() -> (r: Self)
        ensures
            shared_map::counts_of(r.rr_counters).dom() == Set::<Seq<char>>::empty(),
            shared_map::lists_of(r.pools).dom() == Set::<Seq<char>>::empty(),
            shared_map::marks_of(r.health).dom() == Set::<Seq<char>>::empty(),
    {
        Proxy { rr_counters: counts_new(), pools: lists_new(), health: marks_new() }
    }
}

impl Default for Proxy {
    fn default() -> (r: Self)
        ensures
            shared_map::counts_of(r.rr_counters).dom() == Set::<Seq<char>>::empty(),
            shared_map::lists_of(r.pools).dom() == Set::<Seq<char>>::empty(),
            shared_map::marks_of(r.health).dom() == Set::<Seq<char>>::empty(),
    {
        Proxy::new()
    }
}

} // verus!
