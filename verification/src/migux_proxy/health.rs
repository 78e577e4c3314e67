//! Which upstream addresses are tried at present.
//!
//! An address that has failed often enough is passed over for a while. Times
//! are nanoseconds on a clock that only goes forward.
use super::Proxy;
use crate::migux_config::upstream::UpstreamConfig;
use crate::shared_map::{self, marks_get, marks_insert};
use crate::text::concat3;
use vstd::prelude::*;

verus! {

/// When an address counts as down, and for how long.
#[derive(Clone, Copy, Debug, PartialEq, Eq, Structural)]
pub struct HealthPolicy {
    pub fail_threshold: u32,
    pub cooldown_secs: u64,
}

/// The policy that an upstream is configured with.
pub fn health_policy(cfg: &UpstreamConfig) -> (r: HealthPolicy)
    ensures
        r.fail_threshold == (if cfg.health.fail_threshold == 0 {
            1u32
        } else {
            cfg.health.fail_threshold
        }),
        r.cooldown_secs == cfg.health.cooldown_secs,
{
    let fail_threshold: u32 = if cfg.health.fail_threshold == 0 {
        1
    } else {
        cfg.health.fail_threshold
    };
    HealthPolicy { fail_threshold, cooldown_secs: cfg.health.cooldown_secs }
}

/// How an upstream is checked by connecting to it: the seconds between checks
/// and the seconds that a check may take.
pub fn check_schedule(cfg: &UpstreamConfig) -> (r: Option<(u64, u64)>)
    ensures
        r == (if cfg.health.active {
            Some(
                (
                    if cfg.health.interval_secs == 0 {
                        1u64
                    } else {
                        cfg.health.interval_secs
                    },
                    if cfg.health.timeout_secs == 0 {
                        1u64
                    } else {
                        cfg.health.timeout_secs
                    },
                ),
            )
        } else {
            None
        }),
{
    if !cfg.health.active {
        return None;
    }
    let interval: u64 = if cfg.health.interval_secs == 0 {
        1
    } else {
        cfg.health.interval_secs
    };
    let timeout: u64 = if cfg.health.timeout_secs == 0 {
        1
    } else {
        cfg.health.timeout_secs
    };
    Some((interval, timeout))
}

/// The key under which the health of an address is kept.
pub open spec fn key_of(upstream: Seq<char>, addr: Seq<char>) -> Seq<char> {
    upstream + "|"@ + addr
}

/// The key under which the health of an address is kept.
pub fn health_key(upstream_name: &str, addr: &str) -> (r: String)
    ensures
        r@ == key_of(upstream_name@, addr@),
{
    concat3(upstream_name, "|", addr)
}

/// Whether what is kept under a key lets the address be tried.
pub open spec fn healthy(
    marks: Map<Seq<char>, (u32, Option<u128>)>,
    key: Seq<char>,
    now: u64,
) -> bool {
    marks.contains_key(key) ==> match marks[key].1 {
        Some(until) => until <= now,
        None => true,
    }
}

/// Whether the pause of an address is over.
pub open spec fn pause_over(
    marks: Map<Seq<char>, (u32, Option<u128>)>,
    key: Seq<char>,
    now: u64,
) -> bool {
    marks.contains_key(key) && (marks[key].1 matches Some(until) && until <= now)
}

/// What is kept once an address has been looked at: a pause that is over is
/// forgotten, with the failures that led to it.
pub open spec fn looked_at(
    marks: Map<Seq<char>, (u32, Option<u128>)>,
    key: Seq<char>,
    now: u64,
) -> Map<Seq<char>, (u32, Option<u128>)> {
    if pause_over(marks, key, now) {
        marks.insert(key, (0u32, None))
    } else {
        marks
    }
}

/// What is kept once a list of addresses has been looked at.
pub open spec fn all_looked_at(
    marks: Map<Seq<char>, (u32, Option<u128>)>,
    upstream: Seq<char>,
    addrs: Seq<Seq<char>>,
    now: u64,
) -> Map<Seq<char>, (u32, Option<u128>)>
    decreases addrs.len(),
{
    if addrs.len() == 0 {
        marks
    } else {
        looked_at(
            all_looked_at(marks, upstream, addrs.drop_last(), now),
            key_of(upstream, addrs.last()),
            now,
        )
    }
}

/// The addresses that may be tried, in order.
pub open spec fn healthy_addrs(
    marks: Map<Seq<char>, (u32, Option<u128>)>,
    upstream: Seq<char>,
    addrs: Seq<Seq<char>>,
    now: u64,
) -> Seq<Seq<char>>
    decreases addrs.len(),
{
    if addrs.len() == 0 {
        seq![]
    } else if healthy(marks, key_of(upstream, addrs.last()), now) {
        healthy_addrs(marks, upstream, addrs.drop_last(), now).push(addrs.last())
    } else {
        healthy_addrs(marks, upstream, addrs.drop_last(), now)
    }
}

/// The addresses to try: those that may be tried or, where there is none, all.
pub open spec fn addrs_to_try(
    marks: Map<Seq<char>, (u32, Option<u128>)>,
    upstream: Seq<char>,
    addrs: Seq<Seq<char>>,
    now: u64,
) -> Seq<Seq<char>> {
    let h = healthy_addrs(marks, upstream, addrs, now);
    if h.len() == 0 {
        addrs
    } else {
        h
    }
}

/// The end of a pause that begins now.
pub open spec fn pause_end(policy: HealthPolicy, now: u64) -> u128 {
    (now + policy.cooldown_secs * 1_000_000_000) as u128
}

/// What is kept under a key after one more failure.
pub open spec fn failed_once_more(
    marks: Map<Seq<char>, (u32, Option<u128>)>,
    key: Seq<char>,
    policy: HealthPolicy,
    now: u64,
) -> (u32, Option<u128>) {
    let before = if marks.contains_key(key) {
        marks[key]
    } else {
        (0u32, None)
    };
    let failures = before.0.saturating_add(1);
    if failures >= policy.fail_threshold {
        (failures, Some(pause_end(policy, now)))
    } else {
        (failures, before.1)
    }
}

proof fn lemma_looking_keeps_health(
    marks: Map<Seq<char>, (u32, Option<u128>)>,
    upstream: Seq<char>,
    addrs: Seq<Seq<char>>,
    now: u64,
    key: Seq<char>,
)
    ensures
        healthy(all_looked_at(marks, upstream, addrs, now), key, now) == healthy(marks, key, now),
    decreases addrs.len(),
{
    if addrs.len() > 0 {
        lemma_looking_keeps_health(marks, upstream, addrs.drop_last(), now, key);
        lemma_looking_keeps_health(
            marks,
            upstream,
            addrs.drop_last(),
            now,
            key_of(upstream, addrs.last()),
        );
    }
}

impl Proxy {
    /// Whether an address may be tried now. A pause that is over is forgotten.
    pub fn is_healthy(&mut self, upstream_name: &str, addr: &str, now: u64) -> (r: bool)
        ensures
            r == healthy(
                shared_map::marks_of(old(self).health),
                key_of(upstream_name@, addr@),
                now,
            ),
            shared_map::marks_of(final(self).health) == looked_at(
                shared_map::marks_of(old(self).health),
                key_of(upstream_name@, addr@),
                now,
            ),
            final(self).rr_counters == old(self).rr_counters,
            final(self).pools == old(self).pools,
    {
        let key = health_key(upstream_name, addr);
        match marks_get(&self.health, key.as_str()) {
            Some(mark) => match mark.1 {
                Some(until) => {
                    if until > now as u128 {
                        return false;
                    }
                    marks_insert(&mut self.health, key, (0, None));
                },
                None => {},
            },
            None => {},
        }
        true
    }

    /// The addresses to try now: those that are not down or, where all are
    /// down, all of them.
    pub fn filter_healthy_addrs(
        &mut self,
        upstream_name: &str,
        addrs: Vec<String>,
        now: u64,
    ) -> (r: Vec<String>)
        ensures
            r.deep_view() == addrs_to_try(
                shared_map::marks_of(old(self).health),
                upstream_name@,
                addrs.deep_view(),
                now,
            ),
            shared_map::marks_of(final(self).health) == all_looked_at(
                shared_map::marks_of(old(self).health),
                upstream_name@,
                addrs.deep_view(),
                now,
            ),
            final(self).rr_counters == old(self).rr_counters,
            final(self).pools == old(self).pools,
    {
        let ghost marks = shared_map::marks_of(self.health);
        let ghost all = addrs.deep_view();
        let mut good: Vec<String> = Vec::new();
        assert(all.take(0) =~= seq![]);
        assert(good.deep_view() =~= seq![]);
        for i in 0..addrs.len()
            invariant
                all == addrs.deep_view(),
                good.deep_view() == healthy_addrs(marks, upstream_name@, all.take(i as int), now),
                shared_map::marks_of(self.health) == all_looked_at(
                    marks,
                    upstream_name@,
                    all.take(i as int),
                    now,
                ),
                self.rr_counters == old(self).rr_counters,
                self.pools == old(self).pools,
        {
            let ghost before = good.deep_view();
            assert(all.take(i + 1).drop_last() =~= all.take(i as int));
            assert(all.take(i + 1).last() == addrs@[i as int]@);
            proof {
                lemma_looking_keeps_health(
                    marks,
                    upstream_name@,
                    all.take(i as int),
                    now,
                    key_of(upstream_name@, addrs@[i as int]@),
                );
            }
            if self.is_healthy(upstream_name, addrs[i].as_str(), now) {
                good.push(addrs[i].clone());
                assert(good.deep_view() =~= before.push(addrs@[i as int]@));
            }
        }
        assert(all.take(addrs@.len() as int) =~= all);
        if good.len() == 0 {
            addrs
        } else {
            good
        }
    }

    /// Records that an address failed, and begins a pause where it has failed
    /// often enough.
    pub fn record_failure(
        &mut self,
        upstream_name: &str,
        addr: &str,
        policy: &HealthPolicy,
        now: u64,
    )
        ensures
            shared_map::marks_of(final(self).health) == shared_map::marks_of(
                old(self).health,
            ).insert(
                key_of(upstream_name@, addr@),
                failed_once_more(
                    shared_map::marks_of(old(self).health),
                    key_of(upstream_name@, addr@),
                    *policy,
                    now,
                ),
            ),
            final(self).rr_counters == old(self).rr_counters,
            final(self).pools == old(self).pools,
    {
        let key = health_key(upstream_name, addr);
        let before: (u32, Option<u128>) = match marks_get(&self.health, key.as_str()) {
            Some(mark) => mark,
            None => (0, None),
        };
        let failures: u32 = before.0.saturating_add(1);
        assert(now + policy.cooldown_secs * 1_000_000_000 <= 0xffff_ffff_ffff_ffff + 0xffff_ffff_ffff_ffff
            * 1_000_000_000);
        let until: u128 = now as u128 + policy.cooldown_secs as u128 * 1_000_000_000;
        // One failure reaches a threshold of zero as it does one of one.
        if failures >= policy.fail_threshold {
            marks_insert(&mut self.health, key, (failures, Some(until)));
        } else {
            marks_insert(&mut self.health, key, (failures, before.1));
        }
    }

    /// Records that an address answered.
    pub fn record_success(&mut self, upstream_name: &str, addr: &str)
        ensures
            ({
                let marks = shared_map::marks_of(old(self).health);
                let key = key_of(upstream_name@, addr@);
                shared_map::marks_of(final(self).health) == (if marks.contains_key(key) {
                    marks.insert(key, (0u32, None))
                } else {
                    marks
                })
            }),
            final(self).rr_counters == old(self).rr_counters,
            final(self).pools == old(self).pools,
    {
        let key = health_key(upstream_name, addr);
        match marks_get(&self.health, key.as_str()) {
            Some(_) => {
                marks_insert(&mut self.health, key, (0, None));
            },
            None => {},
        }
    }
}

/// An address that fails when it has reached the threshold is passed over for
/// exactly the cooldown.
pub proof fn failing_address_pauses(
    marks: Map<Seq<char>, (u32, Option<u128>)>,
    key: Seq<char>,
    policy: HealthPolicy,
    now: u64,
    later: u64,
)
    requires
        failed_once_more(marks, key, policy, now).0 >= policy.fail_threshold,
    ensures
        healthy(
            marks.insert(key, failed_once_more(marks, key, policy, now)),
            key,
            later,
        ) == (later >= now + policy.cooldown_secs * 1_000_000_000),
{
    assert(now + policy.cooldown_secs * 1_000_000_000 <= 0xffff_ffff_ffff_ffff + 0xffff_ffff_ffff_ffff
        * 1_000_000_000);
}

/// There is always an address to try where there is an address at all.
pub proof fn some_address_to_try(
    marks: Map<Seq<char>, (u32, Option<u128>)>,
    upstream: Seq<char>,
    addrs: Seq<Seq<char>>,
    now: u64,
)
    requires
        addrs.len() > 0,
    ensures
        addrs_to_try(marks, upstream, addrs, now).len() > 0,
{
}

/// What is kept after failures of one address at the given times, one after the
/// other.
pub open spec fn after_failures(
    marks: Map<Seq<char>, (u32, Option<u128>)>,
    key: Seq<char>,
    policy: HealthPolicy,
    times: Seq<u64>,
) -> Map<Seq<char>, (u32, Option<u128>)>
    decreases times.len(),
{
    if times.len() == 0 {
        marks
    } else {
        let before = after_failures(marks, key, policy, times.drop_last());
        before.insert(key, failed_once_more(before, key, policy, times.last()))
    }
}

/// Failures in a row are counted, every one of them: an address of which nothing
/// was kept is passed over once it has failed as often as the threshold says,
/// from the last failure on and for exactly the cooldown. Below the threshold it
/// stays in use. Nothing else is touched.
pub proof fn failures_add_up(
    marks: Map<Seq<char>, (u32, Option<u128>)>,
    key: Seq<char>,
    other: Seq<char>,
    policy: HealthPolicy,
    times: Seq<u64>,
    later: u64,
)
    requires
        !marks.contains_key(key) || marks[key] == (0u32, None::<u128>),
    ensures
        times.len() < policy.fail_threshold ==> healthy(
            after_failures(marks, key, policy, times),
            key,
            later,
        ),
        times.len() > 0 && times.len() >= policy.fail_threshold ==> (healthy(
            after_failures(marks, key, policy, times),
            key,
            later,
        ) <==> later >= times.last() + policy.cooldown_secs * 1_000_000_000),
        other != key ==> healthy(after_failures(marks, key, policy, times), other, later)
            == healthy(marks, other, later),
{
    lemma_count(marks, key, policy, times);
    if other != key {
        lemma_others_stay(marks, key, other, policy, times);
    }
    if times.len() > 0 && times.len() >= policy.fail_threshold {
        let before = after_failures(marks, key, policy, times.drop_last());
        failing_address_pauses(before, key, policy, times.last(), later);
    }
}

proof fn lemma_count(
    marks: Map<Seq<char>, (u32, Option<u128>)>,
    key: Seq<char>,
    policy: HealthPolicy,
    times: Seq<u64>,
)
    requires
        !marks.contains_key(key) || marks[key] == (0u32, None::<u128>),
    ensures
        ({
            let m = after_failures(marks, key, policy, times);
            &&& times.len() > 0 ==> m.contains_key(key)
            &&& m.contains_key(key) ==> m[key].0 == (if times.len() < u32::MAX {
                times.len() as int
            } else {
                u32::MAX as int
            })
            &&& times.len() < policy.fail_threshold && m.contains_key(key) ==> m[key].1 is None
        }),
    decreases times.len(),
{
    if times.len() > 0 {
        lemma_count(marks, key, policy, times.drop_last());
    }
}

proof fn lemma_others_stay(
    marks: Map<Seq<char>, (u32, Option<u128>)>,
    key: Seq<char>,
    other: Seq<char>,
    policy: HealthPolicy,
    times: Seq<u64>,
)
    requires
        other != key,
    ensures
        ({
            let m = after_failures(marks, key, policy, times);
            &&& m.contains_key(other) == marks.contains_key(other)
            &&& m.contains_key(other) ==> m[other] == marks[other]
        }),
    decreases times.len(),
{
    if times.len() > 0 {
        lemma_others_stay(marks, key, other, policy, times.drop_last());
    }
}

/// The addresses of an upstream are told apart.
pub proof fn addresses_are_told_apart(upstream: Seq<char>, a: Seq<char>, b: Seq<char>)
    requires
        a != b,
    ensures
        key_of(upstream, a) != key_of(upstream, b),
{
    let n = upstream.len() + "|"@.len();
    assert(key_of(upstream, a).skip(n as int) =~= a);
    assert(key_of(upstream, b).skip(n as int) =~= b);
}

/// Looking at an address once its pause is over begins the count anew: it takes
/// as many failures as at first for the next pause. A pause that goes on is left
/// alone.
pub proof fn pause_is_forgotten_at_its_end(
    marks: Map<Seq<char>, (u32, Option<u128>)>,
    key: Seq<char>,
    failures: u32,
    until: u128,
    now: u64,
)
    requires
        marks.contains_key(key),
        marks[key] == (failures, Some(until)),
    ensures
        until <= now ==> healthy(marks, key, now) && looked_at(marks, key, now)[key] == (
            0u32,
            None::<u128>,
        ),
        until > now ==> !healthy(marks, key, now) && looked_at(marks, key, now) == marks,
{
}

/// The addresses to try are those that are not down, in their order and each as
/// often as it was given; where all are down, they are all of them.
pub proof fn addresses_not_down_are_tried(
    marks: Map<Seq<char>, (u32, Option<u128>)>,
    upstream: Seq<char>,
    addrs: Seq<Seq<char>>,
    now: u64,
)
    ensures
        ({
            let up = addrs.filter(|a: Seq<char>| healthy(marks, key_of(upstream, a), now));
            addrs_to_try(marks, upstream, addrs, now) == (if up.len() > 0 {
                up
            } else {
                addrs
            })
        }),
{
    lemma_healthy_addrs(marks, upstream, addrs, now);
}

proof fn lemma_healthy_addrs(
    marks: Map<Seq<char>, (u32, Option<u128>)>,
    upstream: Seq<char>,
    addrs: Seq<Seq<char>>,
    now: u64,
)
    ensures
        healthy_addrs(marks, upstream, addrs, now) == addrs.filter(
            |a: Seq<char>| healthy(marks, key_of(upstream, a), now),
        ),
    decreases addrs.len(),
{
    reveal(Seq::filter);
    if addrs.len() > 0 {
        lemma_healthy_addrs(marks, upstream, addrs.drop_last(), now);
    }
}

} // verus!
