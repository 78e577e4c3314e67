//! Idle upstream connections that can be used again.
//!
//! A connection is known by a number; the sockets are kept elsewhere under the
//! same numbers. Times are nanoseconds on a clock that only goes forward.
use super::Proxy;
use crate::shared_map::{self, lists_insert, lists_remove};
use crate::text::copy_str;
use vstd::prelude::*;

verus! {

/// The idle connections to an address, the one used last at the end.
pub open spec fn pool_at(pools: Map<Seq<char>, Seq<(u64, u64)>>, addr: Seq<char>) -> Seq<
    (u64, u64),
> {
    if pools.contains_key(addr) {
        pools[addr]
    } else {
        Seq::empty()
    }
}

/// Whether a connection has not been idle for too long. Without a limit none
/// has.
pub open spec fn fresh(last_used: u64, now: u64, idle_ttl_secs: u64) -> bool {
    idle_ttl_secs == 0 || now - last_used <= idle_ttl_secs * 1_000_000_000
}

/// How many connections stay when one is taken out: those before the last
/// fresh one.
pub open spec fn kept_count(pool: Seq<(u64, u64)>, now: u64, idle_ttl_secs: u64) -> nat
    decreases pool.len(),
{
    if pool.len() == 0 {
        0
    } else if fresh(pool.last().1, now, idle_ttl_secs) {
        (pool.len() - 1) as nat
    } else {
        kept_count(pool.drop_last(), now, idle_ttl_secs)
    }
}

/// The connection that is taken out: the last fresh one.
pub open spec fn taken(pool: Seq<(u64, u64)>, now: u64, idle_ttl_secs: u64) -> Option<u64>
    decreases pool.len(),
{
    if pool.len() == 0 {
        None
    } else if fresh(pool.last().1, now, idle_ttl_secs) {
        Some(pool.last().0)
    } else {
        taken(pool.drop_last(), now, idle_ttl_secs)
    }
}

/// The connections that are given up on the way, the last one first.
pub open spec fn given_up(pool: Seq<(u64, u64)>, now: u64, idle_ttl_secs: u64) -> Seq<u64>
    decreases pool.len(),
{
    if pool.len() == 0 || fresh(pool.last().1, now, idle_ttl_secs) {
        Seq::empty()
    } else {
        seq![pool.last().0] + given_up(pool.drop_last(), now, idle_ttl_secs)
    }
}

/// A pool after a connection has come back. A full pool stays as it is.
pub open spec fn with_returned(pool: Seq<(u64, u64)>, id: u64, now: u64, max_pool: usize) -> Seq<
    (u64, u64),
> {
    if pool.len() >= max_pool {
        pool
    } else {
        pool.push((id, now))
    }
}

/// Whether a connection has not been idle for too long.
fn is_fresh(last_used: u64, now: u64, idle_ttl_secs: u64) -> (r: bool)
    ensures
        r == fresh(last_used, now, idle_ttl_secs),
{
    assert(idle_ttl_secs * 1_000_000_000 <= 0xffff_ffff_ffff_ffff * 1_000_000_000);
    idle_ttl_secs == 0 || now <= last_used || (now - last_used) as u128 <= idle_ttl_secs as u128
        * 1_000_000_000
}

proof fn lemma_kept_count(pool: Seq<(u64, u64)>, now: u64, idle_ttl_secs: u64)
    ensures
        kept_count(pool, now, idle_ttl_secs) <= pool.len(),
    decreases pool.len(),
{
    if pool.len() > 0 {
        lemma_kept_count(pool.drop_last(), now, idle_ttl_secs);
    }
}

impl Proxy {
    /// Takes an idle connection to an address out of the pool: the one used
    /// last that has not been idle for too long. The second result are those
    /// given up on the way.
    pub fn checkout_upstream_stream(&mut self, addr: &str, now: u64, idle_ttl_secs: u64) -> (r: (
        Option<u64>,
        Vec<u64>,
    ))
        ensures
            ({
                let pools = shared_map::lists_of(old(self).pools);
                let pool = pool_at(pools, addr@);
                &&& r.0 == taken(pool, now, idle_ttl_secs)
                &&& r.1@ == given_up(pool, now, idle_ttl_secs)
                &&& shared_map::lists_of(final(self).pools) == (if pools.contains_key(addr@) {
                    pools.insert(addr@, pool.take(kept_count(pool, now, idle_ttl_secs) as int))
                } else {
                    pools
                })
            }),
            final(self).rr_counters == old(self).rr_counters,
            final(self).health == old(self).health,
    {
        let ghost pools = shared_map::lists_of(self.pools);
        let ghost pool = pool_at(pools, addr@);
        let mut dropped: Vec<u64> = Vec::new();
        let mut list = match lists_remove(&mut self.pools, addr) {
            Some(l) => l,
            None => {
                assert(shared_map::lists_of(self.pools) =~= pools);
                assert(dropped@ =~= Seq::empty());
                return (None, dropped);
            },
        };
        let mut found: Option<u64> = None;
        assert(pool.take(pool.len() as int) =~= pool);
        assert(list@ =~= pool);
        while found.is_none() && list.len() > 0
            invariant
                list@.len() <= pool.len(),
                list@ == pool.take(list@.len() as int),
                match found {
                    None => taken(pool, now, idle_ttl_secs) == taken(list@, now, idle_ttl_secs)
                        && given_up(pool, now, idle_ttl_secs) =~= dropped@ + given_up(
                        list@,
                        now,
                        idle_ttl_secs,
                    ) && kept_count(pool, now, idle_ttl_secs) == kept_count(
                        list@,
                        now,
                        idle_ttl_secs,
                    ),
                    Some(id) => taken(pool, now, idle_ttl_secs) == Some(id) && given_up(
                        pool,
                        now,
                        idle_ttl_secs,
                    ) == dropped@ && kept_count(pool, now, idle_ttl_secs) == list@.len(),
                },
            decreases list@.len(),
        {
            let ghost before = list@;
            match list.pop() {
                Some((id, last_used)) => {
                    assert(list@ =~= before.drop_last());
                    assert(list@ =~= pool.take(list@.len() as int));
                    assert(before.last() == (id, last_used));
                    if is_fresh(last_used, now, idle_ttl_secs) {
                        found = Some(id);
                        assert(dropped@ + Seq::<u64>::empty() =~= dropped@);
                    } else {
                        let ghost so_far = dropped@;
                        dropped.push(id);
                        assert(so_far + given_up(before, now, idle_ttl_secs) =~= dropped@
                            + given_up(list@, now, idle_ttl_secs));
                    }
                },
                None => {},
            }
        }
        assert(found is None ==> dropped@ + given_up(list@, now, idle_ttl_secs) =~= dropped@);
        lists_insert(&mut self.pools, copy_str(addr), list);
        assert(shared_map::lists_of(self.pools) =~= pools.insert(
            addr@,
            pool.take(kept_count(pool, now, idle_ttl_secs) as int),
        ));
        (found, dropped)
    }

    /// Puts a connection back into the pool of its address, and says whether
    /// there was room for it.
    pub fn checkin_upstream_stream(&mut self, addr: &str, id: u64, now: u64, max_pool: usize) -> (r:
        bool)
        ensures
            ({
                let pools = shared_map::lists_of(old(self).pools);
                let pool = pool_at(pools, addr@);
                &&& r == (pool.len() < max_pool)
                &&& shared_map::lists_of(final(self).pools) == pools.insert(
                    addr@,
                    with_returned(pool, id, now, max_pool),
                )
            }),
            final(self).rr_counters == old(self).rr_counters,
            final(self).health == old(self).health,
    {
        let ghost pools = shared_map::lists_of(self.pools);
        let mut list = match lists_remove(&mut self.pools, addr) {
            Some(l) => l,
            None => Vec::new(),
        };
        let room = list.len() < max_pool;
        if room {
            list.push((id, now));
        }
        lists_insert(&mut self.pools, copy_str(addr), list);
        assert(shared_map::lists_of(self.pools) =~= pools.insert(
            addr@,
            with_returned(pool_at(pools, addr@), id, now, max_pool),
        ));
        room
    }
}

/// A connection that has just come back is the next one taken, and taking it
/// leaves the pool as it was.
pub proof fn returned_connection_is_reused(
    pool: Seq<(u64, u64)>,
    id: u64,
    now: u64,
    later: u64,
    max_pool: usize,
    idle_ttl_secs: u64,
)
    requires
        pool.len() < max_pool,
        fresh(now, later, idle_ttl_secs),
    ensures
        ({
            let with = with_returned(pool, id, now, max_pool);
            &&& taken(with, later, idle_ttl_secs) == Some(id)
            &&& with.take(kept_count(with, later, idle_ttl_secs) as int) == pool
            &&& given_up(with, later, idle_ttl_secs).len() == 0
        }),
{
    let with = with_returned(pool, id, now, max_pool);
    assert(with.take(pool.len() as int) =~= pool);
}

/// A pool never grows beyond its limit.
pub proof fn pool_stays_bounded(pool: Seq<(u64, u64)>, id: u64, now: u64, max_pool: usize, ttl: u64)
    requires
        pool.len() <= max_pool,
    ensures
        with_returned(pool, id, now, max_pool).len() <= max_pool,
        kept_count(pool, now, ttl) <= max_pool,
{
    lemma_kept_count(pool, now, ttl);
}

/// A connection that has been idle for too long is never taken.
pub proof fn stale_connections_are_not_reused(pool: Seq<(u64, u64)>, now: u64, ttl: u64)
    ensures
        taken(pool, now, ttl) matches Some(id) ==> exists|i: int|
            0 <= i < pool.len() && (#[trigger] pool[i]).0 == id && fresh(pool[i].1, now, ttl),
    decreases pool.len(),
{
    if pool.len() > 0 {
        if fresh(pool.last().1, now, ttl) {
            assert(pool[pool.len() - 1].0 == pool.last().0);
        } else {
            let rest = pool.drop_last();
            stale_connections_are_not_reused(rest, now, ttl);
            match taken(rest, now, ttl) {
                Some(id) => {
                    let i = choose|i: int|
                        0 <= i < rest.len() && (#[trigger] rest[i]).0 == id && fresh(
                            rest[i].1,
                            now,
                            ttl,
                        );
                    assert(pool[i] == rest[i]);
                },
                None => {},
            }
        }
    }
}

/// The connection that was returned last is taken first. Those that have been
/// idle for longer than allowed are given up on the way, from the newest on, and
/// no other; an allowance of zero is none. What lies below the one that is taken
/// stays.
pub proof fn newest_connection_is_taken(pool: Seq<(u64, u64)>, i: int, now: u64, idle_secs: u64)
    requires
        -1 <= i < pool.len(),
        i >= 0 ==> idle_secs == 0 || now - pool[i].1 <= idle_secs * 1_000_000_000,
        forall|j: int|
            i < j < pool.len() ==> idle_secs != 0 && now - (#[trigger] pool[j]).1 > idle_secs
                * 1_000_000_000,
    ensures
        taken(pool, now, idle_secs) == (if i >= 0 {
            Some(pool[i].0)
        } else {
            None
        }),
        kept_count(pool, now, idle_secs) == (if i >= 0 {
            i
        } else {
            0
        }),
        given_up(pool, now, idle_secs).len() == pool.len() - 1 - i,
        forall|k: int|
            0 <= k < pool.len() - 1 - i ==> #[trigger] given_up(pool, now, idle_secs)[k]
                == pool[pool.len() - 1 - k].0,
    decreases pool.len(),
{
    if i < pool.len() - 1 {
        let rest = pool.drop_last();
        assert(pool.last() == pool[pool.len() - 1]);
        assert(!fresh(pool.last().1, now, idle_secs)) by {
            assert(now - pool[pool.len() - 1].1 > idle_secs * 1_000_000_000);
        }
        assert forall|j: int| i < j < rest.len() implies idle_secs != 0 && now - (#[trigger] rest[j]).1
            > idle_secs * 1_000_000_000 by {
            assert(rest[j] == pool[j]);
        }
        newest_connection_is_taken(rest, i, now, idle_secs);
        let g = given_up(pool, now, idle_secs);
        let h = given_up(rest, now, idle_secs);
        assert forall|k: int| 0 <= k < pool.len() - 1 - i implies #[trigger] g[k] == pool[pool.len()
            - 1 - k].0 by {
            if k > 0 {
                assert(g[k] == h[k - 1]);
            }
        }
    }
}

/// A connection is put on top of the others unless the pool is full.
pub proof fn returned_connection_goes_on_top(
    pool: Seq<(u64, u64)>,
    id: u64,
    now: u64,
    max_pool: usize,
)
    ensures
        pool.len() < max_pool ==> with_returned(pool, id, now, max_pool) == pool + seq![(id, now)],
        pool.len() >= max_pool ==> with_returned(pool, id, now, max_pool) == pool,
{
    assert(pool.push((id, now)) =~= pool + seq![(id, now)]);
}

/// Each address has connections of its own. One that had none yet has none, and
/// what becomes of those of one address changes nothing for another.
pub proof fn addresses_have_pools_of_their_own(
    pools: Map<Seq<char>, Seq<(u64, u64)>>,
    addr: Seq<char>,
    other: Seq<char>,
    pool: Seq<(u64, u64)>,
)
    ensures
        pool_at(pools.insert(addr, pool), addr) == pool,
        other != addr ==> pool_at(pools.insert(addr, pool), other) == pool_at(pools, other),
        !pools.contains_key(addr) ==> pool_at(pools, addr).len() == 0,
{
}

} // verus!
