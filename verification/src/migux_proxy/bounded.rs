//! A proxy state with one limit on its pools.
use super::pool;
use crate::shared_map::{
    self, counts_get, counts_insert, counts_new, lists_insert, lists_new, lists_remove,
};
use crate::text::copy_str;
use dashmap::DashMap;
use vstd::prelude::*;

verus! {

/// A proxy whose pools have one limit and whose idle connections stay usable.
pub struct Proxy {
    /// By upstream: how often it has been asked.
    pub rr_counters: DashMap<String, usize>,
    /// By upstream address: the idle connections, with their numbers.
    pub pools: DashMap<String, Vec<(u64, u64)>>,
    /// The limit on the idle connections of an address.
    pub max_pool_per_addr: usize,
}

impl Proxy {
    /// A proxy that remembers nothing.
    pub fn new(max_pool_per_addr: usize) -> (r: Self)
        ensures
            shared_map::counts_of(r.rr_counters).dom() == Set::<Seq<char>>::empty(),
            shared_map::lists_of(r.pools).dom() == Set::<Seq<char>>::empty(),
            r.max_pool_per_addr == max_pool_per_addr,
    {
        Proxy { rr_counters: counts_new(), pools: lists_new(), max_pool_per_addr }
    }

    /// Makes sure that there is a counter for an upstream.
    pub fn ensure_upstream_counter(&mut self, upstream_name: &str)
        ensures
            ({
                let counts = shared_map::counts_of(old(self).rr_counters);
                shared_map::counts_of(final(self).rr_counters) == (if counts.contains_key(
                    upstream_name@,
                ) {
                    counts
                } else {
                    counts.insert(upstream_name@, 0)
                })
            }),
            final(self).pools == old(self).pools,
            final(self).max_pool_per_addr == old(self).max_pool_per_addr,
    {
        match counts_get(&self.rr_counters, upstream_name) {
            Some(_) => {},
            None => {
                counts_insert(&mut self.rr_counters, copy_str(upstream_name), 0);
            },
        }
    }

    /// Takes the idle connection to an address that was put back last.
    pub fn checkout_upstream_stream(&mut self, addr: &str) -> (r: Option<u64>)
        ensures
            ({
                let pools = shared_map::lists_of(old(self).pools);
                let at = pool::pool_at(pools, addr@);
                &&& r == (if at.len() == 0 {
                    None
                } else {
                    Some(at.last().0)
                })
                &&& shared_map::lists_of(final(self).pools) == (if at.len() == 0 {
                    pools
                } else {
                    pools.insert(addr@, at.drop_last())
                })
            }),
            final(self).rr_counters == old(self).rr_counters,
            final(self).max_pool_per_addr == old(self).max_pool_per_addr,
    {
        let ghost pools = shared_map::lists_of(self.pools);
        let ghost at = pool::pool_at(pools, addr@);
        match lists_remove(&mut self.pools, addr) {
            Some(mut list) => {
                let last = list.pop();
                lists_insert(&mut self.pools, copy_str(addr), list);
                match last {
                    Some((id, _)) => {
                        assert(list@ =~= at.drop_last());
                        assert(shared_map::lists_of(self.pools) =~= pools.insert(
                            addr@,
                            at.drop_last(),
                        ));
                        Some(id)
                    },
                    None => {
                        assert(shared_map::lists_of(self.pools) =~= pools);
                        None
                    },
                }
            },
            None => {
                assert(shared_map::lists_of(self.pools) =~= pools);
                None
            },
        }
    }

    /// Puts a connection back, and says whether there was room for it.
    pub fn checkin_upstream_stream(&mut self, addr: &str, id: u64) -> (r: bool)
        ensures
            ({
                let pools = shared_map::lists_of(old(self).pools);
                let at = pool::pool_at(pools, addr@);
                &&& r == (at.len() < old(self).max_pool_per_addr)
                &&& shared_map::lists_of(final(self).pools) == pools.insert(
                    addr@,
                    pool::with_returned(at, id, 0, old(self).max_pool_per_addr),
                )
            }),
            final(self).rr_counters == old(self).rr_counters,
            final(self).max_pool_per_addr == old(self).max_pool_per_addr,
    {
        let ghost pools = shared_map::lists_of(self.pools);
        let mut list = match lists_remove(&mut self.pools, addr) {
            Some(l) => l,
            None => Vec::new(),
        };
        let room = list.len() < self.max_pool_per_addr;
        if room {
            list.push((id, 0));
        }
        lists_insert(&mut self.pools, copy_str(addr), list);
        assert(shared_map::lists_of(self.pools) =~= pools.insert(
            addr@,
            pool::with_returned(
                pool::pool_at(pools, addr@),
                id,
                0,
                self.max_pool_per_addr,
            ),
        ));
        room
    }
}

} // verus!
