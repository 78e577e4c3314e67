//! The addresses of an upstream and the order in which they are tried.
use crate::migux_config::upstream::{copy_strings, ServersView, UpstreamConfig, UpstreamServers, UpstreamView};
use crate::shared_map::{self, counts_get, counts_insert};
use crate::text::{self, chars_of, copy_str, same_str, split_chars, string_of, trim, trim_by, Class};
use dashmap::DashMap;
use vstd::prelude::*;
use vstd::slice::slice_subrange;

verus! {

/// The address that one piece of a list gives.
pub open spec fn piece_address(piece: Seq<char>) -> Seq<char> {
    text::trim_class(text::trimmed(piece), Class::One('"'))
}

/// The addresses that the pieces of a list give; a piece without one is passed
/// over.
pub open spec fn addresses(pieces: Seq<Seq<char>>) -> Seq<Seq<char>>
    decreases pieces.len(),
{
    if pieces.len() == 0 {
        seq![]
    } else {
        let a = piece_address(pieces.last());
        if a.len() == 0 {
            addresses(pieces.drop_last())
        } else {
            addresses(pieces.drop_last()).push(a)
        }
    }
}

/// Whether a text is a list in square brackets.
pub open spec fn bracketed(t: Seq<char>) -> bool {
    t.len() >= 2 && t[0] == '[' && t.last() == ']'
}

/// The addresses that a text gives: those of a list in square brackets, or the
/// text itself.
pub open spec fn servers_in_text(raw: Seq<char>) -> Seq<Seq<char>> {
    let t = text::trimmed(raw);
    if bracketed(t) {
        addresses(text::split(t.subrange(1, t.len() - 1), ','))
    } else {
        seq![t]
    }
}

/// The addresses of an upstream.
pub open spec fn servers_of(u: UpstreamView) -> Seq<Seq<char>> {
    match u.server {
        ServersView::One(s) => servers_in_text(s),
        ServersView::Many(l) => l,
    }
}

/// Reads the addresses in a text.
pub fn parse_servers_from_one(raw: &str) -> (r: Vec<String>)
    ensures
        r.deep_view() == servers_in_text(raw@),
{
    let rc = chars_of(raw);
    let t = trim(rc.as_slice());
    let n: usize = t.len();
    let mut out: Vec<String> = Vec::new();
    if !(n >= 2 && t[0] == '[' && t[n - 1] == ']') {
        out.push(string_of(t));
        assert(out.deep_view() =~= seq![t@]);
        return out;
    }
    let pieces = split_chars(slice_subrange(t, 1, n - 1), ',');
    let ghost all = text::views(pieces@);
    assert(all.take(0) =~= seq![]);
    assert(out.deep_view() =~= seq![]);
    for i in 0..pieces.len()
        invariant
            all == text::views(pieces@),
            out.deep_view() == addresses(all.take(i as int)),
    {
        let ghost before = out.deep_view();
        assert(all.take(i + 1).drop_last() =~= all.take(i as int));
        assert(all.take(i + 1).last() == pieces@[i as int]@);
        let a = trim_by(trim(pieces[i]), Class::One('"'));
        if a.len() > 0 {
            out.push(string_of(a));
            assert(out.deep_view() =~= before.push(a@));
        }
    }
    assert(all.take(pieces@.len() as int) =~= all);
    out
}

/// An upstream has no servers.
#[derive(Clone, Copy, Debug, PartialEq, Eq, Structural)]
pub struct NoServers;

/// The addresses of an upstream, of which there has to be one.
pub fn normalize_servers(cfg: &UpstreamConfig) -> (r: Result<Vec<String>, NoServers>)
    ensures
        match r {
            Ok(l) => l.deep_view() == servers_of(cfg.deep_view()) && l@.len() > 0,
            Err(_) => servers_of(cfg.deep_view()).len() == 0,
        },
{
    let servers = match &cfg.server {
        UpstreamServers::One(s) => parse_servers_from_one(s.as_str()),
        UpstreamServers::Many(l) => copy_strings(l),
    };
    assert(servers.deep_view() == servers_of(cfg.deep_view()));
    if servers.len() == 0 {
        return Err(NoServers);
    }
    Ok(servers)
}

/// A list that begins at position `k` and goes round.
pub open spec fn rotated<T>(s: Seq<T>, k: int) -> Seq<T> {
    s.skip(k) + s.take(k)
}

/// Whether an upstream is to be asked in turn.
pub open spec fn in_turn(u: UpstreamView) -> bool {
    servers_of(u).len() > 1 && u.strategy == Some("round_robin"@)
}

/// How often the upstream has been asked so far.
pub open spec fn turn_of(counts: Map<Seq<char>, usize>, name: Seq<char>) -> usize {
    if counts.contains_key(name) {
        counts[name]
    } else {
        0
    }
}

/// The addresses of an upstream in the order in which they are tried.
pub open spec fn order_of(u: UpstreamView, turn: usize) -> Seq<Seq<char>> {
    let servers = servers_of(u);
    if in_turn(u) {
        rotated(servers, turn as int % servers.len() as int)
    } else {
        servers
    }
}

/// The counters after the upstream has been asked.
pub open spec fn counts_after(
    counts: Map<Seq<char>, usize>,
    name: Seq<char>,
    u: UpstreamView,
) -> Map<Seq<char>, usize> {
    if in_turn(u) {
        counts.insert(name, turn_of(counts, name).wrapping_add(1))
    } else {
        counts
    }
}

/// Whether the strategy of an upstream is to ask its servers in turn.
fn is_round_robin(cfg: &UpstreamConfig) -> (r: bool)
    ensures
        r == (cfg.deep_view().strategy == Some("round_robin"@)),
{
    match &cfg.strategy {
        Some(s) => same_str(s.as_str(), "round_robin"),
        None => false,
    }
}

/// Takes the next turn of an upstream.
fn take_turn(counters: &mut DashMap<String, usize>, name: &str) -> (r: usize)
    ensures
        r == turn_of(shared_map::counts_of(*old(counters)), name@),
        shared_map::counts_of(*final(counters)) == shared_map::counts_of(*old(counters)).insert(
            name@,
            r.wrapping_add(1),
        ),
{
    let turn: usize = match counts_get(counters, name) {
        Some(n) => n,
        None => 0,
    };
    counts_insert(counters, copy_str(name), turn.wrapping_add(1));
    turn
}

/// The addresses of an upstream in the order in which they are tried: the one
/// whose turn it is first, then the others as fallback.
pub fn choose_upstream_addrs_rr_order(
    counters: &mut DashMap<String, usize>,
    upstream_name: &str,
    upstream_cfg: &UpstreamConfig,
) -> (r: Result<Vec<String>, NoServers>)
    ensures
        match r {
            Ok(l) => servers_of(upstream_cfg.deep_view()).len() > 0 && l.deep_view() == order_of(
                upstream_cfg.deep_view(),
                turn_of(shared_map::counts_of(*old(counters)), upstream_name@),
            ),
            Err(_) => servers_of(upstream_cfg.deep_view()).len() == 0,
        },
        shared_map::counts_of(*final(counters)) == counts_after(
            shared_map::counts_of(*old(counters)),
            upstream_name@,
            upstream_cfg.deep_view(),
        ),
{
    let servers = match normalize_servers(upstream_cfg) {
        Ok(l) => l,
        Err(e) => {
            return Err(e);
        },
    };
    let ghost all = servers_of(upstream_cfg.deep_view());
    let n: usize = servers.len();
    if n == 1 || !is_round_robin(upstream_cfg) {
        return Ok(servers);
    }
    let turn: usize = take_turn(counters, upstream_name);
    let start: usize = turn % n;
    let ghost goal = rotated(all, start as int);
    let mut ordered: Vec<String> = Vec::new();
    assert(ordered.deep_view() =~= goal.take(0));
    for i in 0..n
        invariant
            n == servers@.len(),
            all == servers.deep_view(),
            0 <= start < n,
            goal == rotated(all, start as int),
            ordered.deep_view() == goal.take(i as int),
    {
        let pos: usize = if i < n - start {
            start + i
        } else {
            i - (n - start)
        };
        let ghost before = ordered.deep_view();
        ordered.push(servers[pos].clone());
        assert(ordered.deep_view() =~= before.push(servers@[pos as int]@));
        assert(servers@[pos as int]@ == all[pos as int]);
        assert(goal[i as int] == all[pos as int]);
        assert(goal.take(i + 1) =~= goal.take(i as int).push(goal[i as int]));
    }
    assert(goal.take(n as int) =~= goal);
    Ok(ordered)
}

/// The address that an upstream is asked at, where there is no fallback.
pub fn choose_upstream_addr(
    counters: &mut DashMap<String, usize>,
    upstream_name: &str,
    upstream_cfg: &UpstreamConfig,
) -> (r: Result<String, NoServers>)
    ensures
        match r {
            Ok(a) => servers_of(upstream_cfg.deep_view()).len() > 0 && a@ == order_of(
                upstream_cfg.deep_view(),
                turn_of(shared_map::counts_of(*old(counters)), upstream_name@),
            )[0],
            Err(_) => servers_of(upstream_cfg.deep_view()).len() == 0,
        },
        shared_map::counts_of(*final(counters)) == counts_after(
            shared_map::counts_of(*old(counters)),
            upstream_name@,
            upstream_cfg.deep_view(),
        ),
{
    let servers = match normalize_servers(upstream_cfg) {
        Ok(l) => l,
        Err(e) => {
            return Err(e);
        },
    };
    let n: usize = servers.len();
    if n == 1 || !is_round_robin(upstream_cfg) {
        return Ok(servers[0].clone());
    }
    let turn: usize = take_turn(counters, upstream_name);
    Ok(servers[turn % n].clone())
}

/// Whatever the turn, every address is tried as often as it is configured.
pub proof fn order_is_a_permutation(u: UpstreamView, turn: usize)
    requires
        servers_of(u).len() > 0,
    ensures
        order_of(u, turn).to_multiset() == servers_of(u).to_multiset(),
{
    broadcast use vstd::seq_lib::group_to_multiset_ensures;

    let s = servers_of(u);
    if in_turn(u) {
        let k = turn as int % s.len() as int;
        assert(s =~= s.take(k) + s.skip(k));
        vstd::seq_lib::lemma_multiset_commutative(s.take(k), s.skip(k));
        vstd::seq_lib::lemma_multiset_commutative(s.skip(k), s.take(k));
    }
}

/// The address that comes first moves on by one with every turn, and goes
/// round.
pub proof fn turns_go_round(u: UpstreamView, turn: usize)
    requires
        in_turn(u),
        turn < usize::MAX,
    ensures
        ({
            let n = servers_of(u).len() as int;
            let k = turn as int % n;
            &&& order_of(u, turn)[0] == servers_of(u)[k]
            &&& order_of(u, (turn + 1) as usize)[0] == servers_of(u)[if k + 1 == n {
                0
            } else {
                k + 1
            }]
        }),
{
    let n = servers_of(u).len() as int;
    vstd::arithmetic::div_mod::lemma_add_mod_noop_right(1, turn as int, n);
    let k = turn as int % n;
    assert((turn + 1) as int % n == (1 + k) % n);
    if k + 1 == n {
        vstd::arithmetic::div_mod::lemma_mod_self_0(n);
    } else {
        vstd::arithmetic::div_mod::lemma_small_mod((k + 1) as nat, n as nat);
    }
}

// ---------------------------------------------------------------------------
// Lists and turns
// ---------------------------------------------------------------------------

/// A list of addresses as a configuration writes it, without the brackets.
pub open spec fn listed(addrs: Seq<Seq<char>>) -> Seq<char>
    decreases addrs.len(),
{
    if addrs.len() == 0 {
        seq![]
    } else if addrs.len() == 1 {
        seq!['"'] + addrs[0] + seq!['"']
    } else {
        seq!['"'] + addrs[0] + seq!['"', ',', ' '] + listed(addrs.drop_first())
    }
}

/// Whether an address can stand in a list: it is not empty, holds no comma, and
/// has neither white space nor a quotation mark at its ends.
pub open spec fn listable(a: Seq<char>) -> bool {
    &&& a.len() > 0
    &&& !a.contains(',')
    &&& !text::is_white(a[0]) && a[0] != '"'
    &&& !text::is_white(a.last()) && a.last() != '"'
}

proof fn lemma_quoted_address(lead: Seq<char>, a: Seq<char>)
    requires
        listable(a),
        lead == Seq::<char>::empty() || lead == seq![' '],
    ensures
        piece_address(lead + seq!['"'] + a + seq!['"']) == a,
{
    let q = seq!['"'] + a + seq!['"'];
    let p = lead + seq!['"'] + a + seq!['"'];
    assert(q[0] == '"' && q.last() == '"');
    assert(text::trim_start(q, Class::White) == q);
    if lead.len() > 0 {
        assert(p[0] == ' ');
        assert(p.drop_first() =~= q);
    } else {
        assert(p =~= q);
    }
    assert(text::trimmed(p) == q);
    let k = Class::One('"');
    assert(q.drop_first() =~= a + seq!['"']);
    let t = a + seq!['"'];
    assert(t[0] == a[0]);
    assert(text::trim_start(t, k) == t);
    assert(text::trim_start(q, k) == t);
    assert(t.last() == '"');
    assert(t.drop_last() =~= a);
    assert(text::trim_end(a, k) == a);
}

proof fn lemma_addresses_front(pieces: Seq<Seq<char>>)
    requires
        pieces.len() > 0,
    ensures
        addresses(pieces) == (if piece_address(pieces[0]).len() == 0 {
            Seq::<Seq<char>>::empty()
        } else {
            seq![piece_address(pieces[0])]
        }) + addresses(pieces.drop_first()),
    decreases pieces.len(),
{
    let front = if piece_address(pieces[0]).len() == 0 {
        Seq::<Seq<char>>::empty()
    } else {
        seq![piece_address(pieces[0])]
    };
    if pieces.len() == 1 {
        assert(pieces.drop_last() =~= seq![]);
        assert(pieces.drop_first() =~= seq![]);
        assert(addresses(pieces.drop_last()) =~= seq![]);
        assert(addresses(pieces) =~= front + addresses(pieces.drop_first()));
    } else {
        lemma_addresses_front(pieces.drop_last());
        assert(pieces.drop_last().drop_first() =~= pieces.drop_first().drop_last());
        assert(pieces.drop_first().last() == pieces.last());
        assert(addresses(pieces) =~= front + addresses(pieces.drop_first()));
    }
}

proof fn lemma_listed(lead: Seq<char>, addrs: Seq<Seq<char>>)
    requires
        addrs.len() > 0,
        forall|i: int| 0 <= i < addrs.len() ==> listable(#[trigger] addrs[i]),
        lead == Seq::<char>::empty() || lead == seq![' '],
    ensures
        addresses(text::split(lead + listed(addrs), ',')) == addrs,
    decreases addrs.len(),
{
    let a = addrs[0];
    let piece = lead + seq!['"'] + a + seq!['"'];
    let all = lead + listed(addrs);
    let n = piece.len() as int;
    assert forall|j: int| 0 <= j < n implies piece[j] != ',' by {
        let m = lead.len() as int;
        if m + 1 <= j < m + 1 + a.len() {
            assert(piece[j] == a[j - m - 1]);
            assert(a.contains(a[j - m - 1]));
        }
    }
    lemma_quoted_address(lead, a);
    if addrs.len() == 1 {
        assert(all =~= piece);
        text::lemma_first_pos(all, ',', n);
        let ps = text::split(all, ',');
        assert(ps =~= seq![piece]);
        lemma_addresses_front(ps);
        assert(ps.drop_first() =~= seq![]);
        assert(addresses(ps) =~= addrs);
    } else {
        let more = addrs.drop_first();
        assert forall|i: int| 0 <= i < more.len() implies listable(#[trigger] more[i]) by {
            assert(more[i] == addrs[i + 1]);
        }
        let rest = seq![' '] + listed(more);
        assert(all =~= piece + seq![','] + rest);
        text::lemma_first_pos(all, ',', n);
        assert(all.take(n) =~= piece);
        assert(all.skip(n + 1) =~= rest);
        lemma_listed(seq![' '], more);
        let ps = text::split(all, ',');
        assert(ps == seq![piece] + text::split(rest, ','));
        lemma_addresses_front(ps);
        assert(ps.drop_first() =~= text::split(rest, ','));
        assert(addresses(ps) =~= seq![a] + more);
        assert(seq![a] + more =~= addrs);
    }
}

/// A list of addresses in brackets is read as it was written. A text without
/// brackets is one address, without the white space around it.
pub proof fn listed_servers_are_read(addrs: Seq<Seq<char>>, one: Seq<char>)
    requires
        forall|i: int| 0 <= i < addrs.len() ==> listable(#[trigger] addrs[i]),
        one.len() > 0,
        !text::is_white(one[0]) && !text::is_white(one.last()),
        one[0] != '[' || one.last() != ']',
    ensures
        servers_in_text(seq!['['] + listed(addrs) + seq![']']) == addrs,
        servers_in_text(one) == seq![one],
        servers_in_text(seq![' '] + one) == seq![one],
        servers_in_text(one + seq![' ']) == seq![one],
{
    let t = seq!['['] + listed(addrs) + seq![']'];
    assert(t[0] == '[' && t.last() == ']');
    assert(text::trimmed(t) == t);
    let inner = t.subrange(1, t.len() - 1);
    assert(inner =~= listed(addrs));
    if addrs.len() == 0 {
        assert(inner =~= seq![]);
        let ps = text::split(inner, ',');
        assert(ps =~= seq![inner]);
        lemma_addresses_front(ps);
        assert(ps.drop_first() =~= seq![]);
        assert(addresses(ps) =~= addrs);
    } else {
        assert(Seq::<char>::empty() + listed(addrs) =~= listed(addrs));
        lemma_listed(seq![], addrs);
    }
    assert(text::trimmed(one) == one);
    assert((seq![' '] + one).drop_first() =~= one);
    let late = one + seq![' '];
    assert(late[0] == one[0]);
    assert(text::trim_start(late, Class::White) == late);
    assert(late.drop_last() =~= one);
}

/// The servers of an upstream are those of its list, or those in its one text.
pub proof fn listed_servers_are_used(u: UpstreamView)
    ensures
        u.server matches ServersView::Many(l) ==> servers_of(u) == l,
        u.server matches ServersView::One(s) ==> servers_of(u) == servers_in_text(s),
{
}

/// Where the strategy is round robin and there are several servers, they are
/// tried from the one whose turn it is on, in their order and round the end;
/// else in their order.
pub proof fn servers_are_tried_in_turn(u: UpstreamView, turn: usize, i: int)
    requires
        0 <= i < servers_of(u).len(),
    ensures
        order_of(u, turn).len() == servers_of(u).len(),
        u.strategy == Some("round_robin"@) && servers_of(u).len() > 1 ==> order_of(u, turn)[i]
            == servers_of(u)[(turn + i) % servers_of(u).len() as int],
        u.strategy != Some("round_robin"@) ==> order_of(u, turn)[i] == servers_of(u)[i],
{
    let n = servers_of(u).len() as int;
    let k = turn as int % n;
    assert(0 <= k < n) by (nonlinear_arith)
        requires
            n > 0,
            k == turn as int % n,
    ;
    if u.strategy == Some("round_robin"@) && n > 1 {
        vstd::arithmetic::div_mod::lemma_fundamental_div_mod(turn as int, n);
        let q = turn as int / n;
        assert(q * n == n * q) by (nonlinear_arith);
        assert((q + 1) * n == n * (q + 1)) by (nonlinear_arith);
        if k + i < n {
            vstd::arithmetic::div_mod::lemma_fundamental_div_mod_converse(turn + i, n, q, k + i);
        } else {
            assert(turn + i == n * (q + 1) + (k + i - n)) by (nonlinear_arith)
                requires
                    turn as int == n * q + k,
            ;
            vstd::arithmetic::div_mod::lemma_fundamental_div_mod_converse(
                turn + i,
                n,
                q + 1,
                k + i - n,
            );
        }
    }
}

/// What the counters are after an upstream has been asked so many times.
pub open spec fn counts_after_requests(
    counts: Map<Seq<char>, usize>,
    name: Seq<char>,
    u: UpstreamView,
    times: nat,
) -> Map<Seq<char>, usize>
    decreases times,
{
    if times == 0 {
        counts
    } else {
        counts_after(counts_after_requests(counts, name, u, (times - 1) as nat), name, u)
    }
}

/// Requests go round: of an upstream that was not asked before, the request with
/// so many before it goes to the server of that number, counted round. Other
/// upstreams keep their turn.
pub proof fn requests_go_round(
    counts: Map<Seq<char>, usize>,
    name: Seq<char>,
    other: Seq<char>,
    u: UpstreamView,
    times: nat,
)
    requires
        u.strategy == Some("round_robin"@),
        servers_of(u).len() > 1,
        !counts.contains_key(name),
        times <= usize::MAX,
        other != name,
    ensures
        order_of(u, turn_of(counts_after_requests(counts, name, u, times), name))[0] == servers_of(
            u,
        )[times as int % servers_of(u).len() as int],
        turn_of(counts_after_requests(counts, name, u, times), other) == turn_of(counts, other),
{
    lemma_turns(counts, name, other, u, times);
    servers_are_tried_in_turn(u, times as usize, 0);
}

proof fn lemma_turns(
    counts: Map<Seq<char>, usize>,
    name: Seq<char>,
    other: Seq<char>,
    u: UpstreamView,
    times: nat,
)
    requires
        u.strategy == Some("round_robin"@),
        servers_of(u).len() > 1,
        !counts.contains_key(name),
        times <= usize::MAX,
        other != name,
    ensures
        turn_of(counts_after_requests(counts, name, u, times), name) == times,
        turn_of(counts_after_requests(counts, name, u, times), other) == turn_of(counts, other),
    decreases times,
{
    if times > 0 {
        lemma_turns(counts, name, other, u, (times - 1) as nat);
    }
}

/// An upstream with one server, and one that is not to be asked in turn, take no
/// turn: no count changes, and the servers are tried in the order in which they
/// are set.
pub proof fn lone_servers_take_no_turn(
    u: UpstreamView,
    counts: Map<Seq<char>, usize>,
    name: Seq<char>,
    turn: usize,
)
    requires
        servers_of(u).len() <= 1 || u.strategy != Some("round_robin"@),
    ensures
        counts_after(counts, name, u) == counts,
        order_of(u, turn) == servers_of(u),
{
}

} // verus!
