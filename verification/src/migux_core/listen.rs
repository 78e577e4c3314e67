//! Grouping the configured servers by the address at which they listen.
use super::structs::{RuntimeView, ServerRuntime};
use super::types::{ServersByListen, TlsListenConfig, TlsListenView, TlsServersByListen};
use crate::migux_config::location::{LocationConfig, LocationType, LocationView};
use crate::migux_config::migux::{ConfigView, MiguxConfig};
use crate::migux_config::server::{ServerConfig, ServerView};
use crate::migux_config::tls::TlsView;
use crate::named::{self, Named};
use crate::text::{copy_str, same_str};
use vstd::prelude::*;

verus! {

/// The locations of a server, in order.
pub open spec fn locations_of(ls: Seq<(Seq<char>, LocationView)>, server: Seq<char>) -> Seq<
    LocationView,
>
    decreases ls.len(),
{
    if ls.len() == 0 {
        Seq::empty()
    } else if ls.last().1.server == server {
        locations_of(ls.drop_last(), server).push(ls.last().1)
    } else {
        locations_of(ls.drop_last(), server)
    }
}

/// The location of a server for which none is configured: all paths, served
/// from its files.
pub open spec fn fallback_location(name: Seq<char>, s: ServerView) -> LocationView {
    LocationView {
        server: name,
        path: "/"@,
        kind: LocationType::Static,
        root: Some(s.root),
        index: Some(s.index),
        upstream: None,
        strip_prefix: None,
        cache: None,
    }
}

/// A server with its locations.
pub open spec fn runtime_of(
    name: Seq<char>,
    s: ServerView,
    ls: Seq<(Seq<char>, LocationView)>,
) -> RuntimeView {
    let own = locations_of(ls, name);
    RuntimeView {
        name,
        config: s,
        locations: if own.len() == 0 {
            seq![fallback_location(name, s)]
        } else {
            own
        },
    }
}

/// The servers that listen at an address, in order.
pub open spec fn servers_at(
    ss: Seq<(Seq<char>, ServerView)>,
    ls: Seq<(Seq<char>, LocationView)>,
    listen: Seq<char>,
) -> Seq<RuntimeView>
    decreases ss.len(),
{
    if ss.len() == 0 {
        Seq::empty()
    } else {
        let before = servers_at(ss.drop_last(), ls, listen);
        if ss.last().1.listen == listen {
            before.push(runtime_of(ss.last().0, ss.last().1, ls))
        } else {
            before
        }
    }
}

/// The servers that listen with TLS at an address, in order.
pub open spec fn tls_servers_at(
    ss: Seq<(Seq<char>, ServerView)>,
    ls: Seq<(Seq<char>, LocationView)>,
    listen: Seq<char>,
) -> Seq<RuntimeView>
    decreases ss.len(),
{
    if ss.len() == 0 {
        Seq::empty()
    } else {
        let before = tls_servers_at(ss.drop_last(), ls, listen);
        match ss.last().1.tls {
            Some(t) => if t.listen == listen {
                before.push(runtime_of(ss.last().0, ss.last().1, ls))
            } else {
                before
            },
            None => before,
        }
    }
}

/// The TLS settings of the first server that listens with TLS at an address.
pub open spec fn tls_settings_at(ss: Seq<(Seq<char>, ServerView)>, listen: Seq<char>) -> Option<
    TlsView,
>
    decreases ss.len(),
{
    if ss.len() == 0 {
        None
    } else {
        match tls_settings_at(ss.drop_last(), listen) {
            Some(t) => Some(t),
            None => match ss.last().1.tls {
                Some(t) => if t.listen == listen {
                    Some(t)
                } else {
                    None
                },
                None => None,
            },
        }
    }
}

/// What is found under a listen address.
pub open spec fn group_at(
    ss: Seq<(Seq<char>, ServerView)>,
    ls: Seq<(Seq<char>, LocationView)>,
    listen: Seq<char>,
) -> Option<Seq<RuntimeView>> {
    if servers_at(ss, ls, listen).len() == 0 {
        None
    } else {
        Some(servers_at(ss, ls, listen))
    }
}

/// What is found under a TLS listen address.
pub open spec fn tls_group_at(
    ss: Seq<(Seq<char>, ServerView)>,
    ls: Seq<(Seq<char>, LocationView)>,
    listen: Seq<char>,
) -> Option<TlsListenView> {
    match tls_settings_at(ss, listen) {
        Some(tls) => Some((TlsListenView { listen, tls, servers: tls_servers_at(ss, ls, listen) })),
        None => None,
    }
}

/// Collects the locations of a server.
fn collect_locations(cfg: &MiguxConfig, name: &str, server: &ServerConfig) -> (r: Vec<
    LocationConfig,
>)
    ensures
        r.deep_view() == runtime_of(
            name@,
            server.deep_view(),
            cfg.location.deep_view(),
        ).locations,
{
    let ghost all = cfg.location.deep_view();
    let mut out: Vec<LocationConfig> = Vec::new();
    assert(all.take(0) =~= Seq::empty());
    assert(out.deep_view() =~= Seq::empty());
    for i in 0..cfg.location.entries.len()
        invariant
            all == cfg.location.deep_view(),
            out.deep_view() == locations_of(all.take(i as int), name@),
    {
        let ghost before = out.deep_view();
        let l = &cfg.location.entries[i].1;
        assert(all.take(i + 1).drop_last() =~= all.take(i as int));
        assert(all.take(i + 1).last() == (cfg.location.entries@[i as int].0@, l.deep_view()));
        if same_str(l.server.as_str(), name) {
            out.push(l.clone());
            assert(out.deep_view() =~= before.push(l.deep_view()));
        }
    }
    assert(all.take(cfg.location.entries@.len() as int) =~= all);
    if out.len() == 0 {
        let l = LocationConfig {
            server: copy_str(name),
            path: copy_str("/"),
            kind: LocationType::Static,
            root: Some(server.root.clone()),
            index: Some(server.index.clone()),
            upstream: None,
            strip_prefix: None,
            cache: None,
        };
        assert(l.deep_view() =~= fallback_location(name@, server.deep_view()));
        out.push(l);
        assert(out.deep_view() =~= seq![fallback_location(name@, server.deep_view())]);
    }
    out
}

/// Groups the servers by the address at which they listen.
pub fn build_servers_by_listen(cfg: &MiguxConfig) -> (r: ServersByListen)
    ensures
        named::names_distinct(r.deep_view()),
        forall|k: Seq<char>|
            #[trigger] named::find(r.deep_view(), k) == group_at(
                cfg.servers.deep_view(),
                cfg.location.deep_view(),
                k,
            ),
{
    let ghost all = cfg.servers.deep_view();
    let ghost ls = cfg.location.deep_view();
    let mut map: ServersByListen = Named::new();
    assert(all.take(0) =~= Seq::empty());
    for i in 0..cfg.servers.entries.len()
        invariant
            all == cfg.servers.deep_view(),
            ls == cfg.location.deep_view(),
            named::names_distinct(map.deep_view()),
            forall|k: Seq<char>|
                #[trigger] named::find(map.deep_view(), k) == group_at(
                    all.take(i as int),
                    ls,
                    k,
                ),
    {
        let name = cfg.servers.entries[i].0.as_str();
        let server = &cfg.servers.entries[i].1;
        let ghost seen = all.take(i as int);
        let ghost now = all.take(i + 1);
        assert(now.drop_last() =~= seen);
        assert(now.last() == (name@, server.deep_view()));
        let locations = collect_locations(cfg, name, server);
        let runtime = ServerRuntime::new(copy_str(name), server.clone(), locations);
        let ghost rv = runtime_of(name@, server.deep_view(), ls);
        assert(runtime.deep_view() =~= rv);
        let ghost before = map.deep_view();
        let ghost key = server.listen@;
        let ghost old_group = servers_at(seen, ls, key);
        let at = map.index_of(server.listen.as_str());
        proof {
            named::lemma_find(before, key, at as int);
        }
        assert(named::find(before, key) == group_at(seen, ls, key));
        if at < map.entries.len() {
            map.entries[at].1.push(runtime);
            assert(map.entries@[at as int].1.deep_view() =~= old_group.push(rv));
            assert(map.deep_view() =~= before.update(at as int, (key, old_group.push(rv))));
        } else {
            let mut list: Vec<ServerRuntime> = Vec::new();
            list.push(runtime);
            assert(list.deep_view() =~= old_group.push(rv));
            map.entries.push((server.listen.clone(), list));
            assert(map.deep_view() =~= before.push((key, old_group.push(rv))));
        }
        proof {
            named::lemma_with_value(before, key, old_group.push(rv), at as int);
            named::put_keeps_names_distinct(before, key, old_group.push(rv));
            assert forall|k: Seq<char>| #[trigger]
                named::find(map.deep_view(), k) == group_at(now, ls, k) by {
                named::put_is_found(before, key, old_group.push(rv), k);
                assert(named::find(before, k) == group_at(seen, ls, k));
            }
        }
    }
    assert(all.take(cfg.servers.entries@.len() as int) =~= all);
    map
}

/// Groups the servers with TLS settings by their TLS listen address. The
/// listener has the settings of the first server that names the address.
pub fn build_tls_servers_by_listen(cfg: &MiguxConfig) -> (r: TlsServersByListen)
    ensures
        named::names_distinct(r.deep_view()),
        forall|k: Seq<char>|
            #[trigger] named::find(r.deep_view(), k) == tls_group_at(
                cfg.servers.deep_view(),
                cfg.location.deep_view(),
                k,
            ),
{
    let ghost all = cfg.servers.deep_view();
    let ghost ls = cfg.location.deep_view();
    let mut map: TlsServersByListen = Named::new();
    assert(all.take(0) =~= Seq::empty());
    for i in 0..cfg.servers.entries.len()
        invariant
            all == cfg.servers.deep_view(),
            ls == cfg.location.deep_view(),
            named::names_distinct(map.deep_view()),
            forall|k: Seq<char>|
                #[trigger] named::find(map.deep_view(), k) == tls_group_at(
                    all.take(i as int),
                    ls,
                    k,
                ),
    {
        let name = cfg.servers.entries[i].0.as_str();
        let server = &cfg.servers.entries[i].1;
        let ghost seen = all.take(i as int);
        let ghost now = all.take(i + 1);
        assert(now.drop_last() =~= seen);
        assert(now.last() == (name@, server.deep_view()));
        let ghost before = map.deep_view();
        match &server.tls {
            Some(tls) => {
                let locations = collect_locations(cfg, name, server);
                let runtime = ServerRuntime::new(copy_str(name), server.clone(), locations);
                let ghost rv = runtime_of(name@, server.deep_view(), ls);
                assert(runtime.deep_view() =~= rv);
                let ghost key = tls.listen@;
                let ghost old_servers = tls_servers_at(seen, ls, key);
                let ghost settings = match tls_settings_at(seen, key) {
                    Some(t) => t,
                    None => tls.deep_view(),
                };
                let ghost value = TlsListenView {
                    listen: key,
                    tls: settings,
                    servers: old_servers.push(rv),
                };
                let at = map.index_of(tls.listen.as_str());
                proof {
                    named::lemma_find(before, key, at as int);
                    lemma_tls_settings(seen, ls, key);
                }
                assert(named::find(before, key) == tls_group_at(seen, ls, key));
                if at < map.entries.len() {
                    assert(before[at as int].1.servers == old_servers);
                    assert(before[at as int].1.listen == key);
                    map.entries[at].1.servers.push(runtime);
                    assert(map.entries@[at as int].1.deep_view() =~= value) by {
                        assert(map.entries@[at as int].1.servers.deep_view() =~= old_servers.push(
                            rv,
                        ));
                    }
                    assert(map.deep_view() =~= before.update(at as int, (key, value)));
                } else {
                    let mut list: Vec<ServerRuntime> = Vec::new();
                    list.push(runtime);
                    assert(list.deep_view() =~= old_servers.push(rv));
                    let entry = TlsListenConfig::new(tls.listen.clone(), tls.clone(), list);
                    assert(entry.deep_view() =~= value);
                    map.entries.push((tls.listen.clone(), entry));
                    assert(map.deep_view() =~= before.push((key, value)));
                }
                proof {
                    named::lemma_with_value(before, key, value, at as int);
                    named::put_keeps_names_distinct(before, key, value);
                    assert forall|k: Seq<char>| #[trigger]
                        named::find(map.deep_view(), k) == tls_group_at(now, ls, k) by {
                        named::put_is_found(before, key, value, k);
                        assert(named::find(before, k) == tls_group_at(seen, ls, k));
                        lemma_tls_settings(seen, ls, k);
                    }
                }
            },
            None => {
                assert forall|k: Seq<char>| #[trigger]
                    named::find(map.deep_view(), k) == tls_group_at(now, ls, k) by {
                    assert(named::find(before, k) == tls_group_at(seen, ls, k));
                }
            },
        }
    }
    assert(all.take(cfg.servers.entries@.len() as int) =~= all);
    map
}

proof fn lemma_tls_settings(
    ss: Seq<(Seq<char>, ServerView)>,
    ls: Seq<(Seq<char>, LocationView)>,
    listen: Seq<char>,
)
    ensures
        tls_settings_at(ss, listen) is None ==> tls_servers_at(ss, ls, listen).len() == 0,
    decreases ss.len(),
{
    if ss.len() > 0 {
        lemma_tls_settings(ss.drop_last(), ls, listen);
    }
}

/// Every configured server is found at its listen address.
pub proof fn every_server_listens(c: ConfigView, i: int)
    requires
        0 <= i < c.servers.len(),
    ensures
        servers_at(c.servers, c.location, c.servers[i].1.listen).contains(
            runtime_of(c.servers[i].0, c.servers[i].1, c.location),
        ),
{
    lemma_server_found(c.servers, c.location, i);
}

proof fn lemma_server_found(
    ss: Seq<(Seq<char>, ServerView)>,
    ls: Seq<(Seq<char>, LocationView)>,
    i: int,
)
    requires
        0 <= i < ss.len(),
    ensures
        servers_at(ss, ls, ss[i].1.listen).contains(runtime_of(ss[i].0, ss[i].1, ls)),
    decreases ss.len(),
{
    let k = ss[i].1.listen;
    let before = servers_at(ss.drop_last(), ls, k);
    let now = servers_at(ss, ls, k);
    if i == ss.len() - 1 {
        assert(now[before.len() as int] == runtime_of(ss[i].0, ss[i].1, ls));
    } else {
        lemma_server_found(ss.drop_last(), ls, i);
        let j = choose|j: int|
            0 <= j < before.len() && before[j] == runtime_of(ss[i].0, ss[i].1, ls);
        assert(now[j] == before[j]);
    }
}

/// A server at a listen address always has a location.
pub proof fn every_server_has_a_location(
    name: Seq<char>,
    s: ServerView,
    ls: Seq<(Seq<char>, LocationView)>,
)
    ensures
        runtime_of(name, s, ls).locations.len() > 0,
{
}

/// The locations of a server are those that name it, in order; a server without
/// any serves its own files at the root.
pub proof fn locations_follow_their_server(
    name: Seq<char>,
    s: ServerView,
    ls: Seq<(Seq<char>, LocationView)>,
)
    ensures
        ({
            let own = ls.filter(|l: (Seq<char>, LocationView)| l.1.server == name).map_values(
                |l: (Seq<char>, LocationView)| l.1,
            );
            let r = runtime_of(name, s, ls);
            &&& r.name == name
            &&& r.config == s
            &&& own.len() > 0 ==> r.locations == own
            &&& own.len() == 0 ==> r.locations.len() == 1 && ({
                let l = r.locations[0];
                &&& l.server == name
                &&& l.path == seq!['/']
                &&& l.kind == LocationType::Static
                &&& l.root == Some(s.root)
                &&& l.index == Some(s.index)
                &&& l.upstream is None
                &&& l.strip_prefix is None
                &&& l.cache is None
            })
        }),
{
    lemma_own_locations(ls, name);
    reveal_strlit("/");
    assert("/"@ =~= seq!['/']);
}

proof fn lemma_own_locations(ls: Seq<(Seq<char>, LocationView)>, name: Seq<char>)
    ensures
        locations_of(ls, name) == ls.filter(
            |l: (Seq<char>, LocationView)| l.1.server == name,
        ).map_values(|l: (Seq<char>, LocationView)| l.1),
    decreases ls.len(),
{
    reveal(Seq::filter);
    let own = |l: (Seq<char>, LocationView)| l.1.server == name;
    let view = |l: (Seq<char>, LocationView)| l.1;
    if ls.len() == 0 {
        assert(ls.filter(own).map_values(view) =~= seq![]);
    } else {
        let rest = ls.drop_last();
        lemma_own_locations(rest, name);
        if own(ls.last()) {
            assert(ls.filter(own).map_values(view) =~= rest.filter(own).map_values(view).push(
                ls.last().1,
            ));
        }
    }
}

/// At an address listen the servers that name it, in order; at one that no server
/// names, nothing listens.
pub proof fn servers_listen_where_they_say(
    ss: Seq<(Seq<char>, ServerView)>,
    ls: Seq<(Seq<char>, LocationView)>,
    listen: Seq<char>,
)
    ensures
        ({
            let here = ss.filter(|s: (Seq<char>, ServerView)| s.1.listen == listen).map_values(
                |s: (Seq<char>, ServerView)| runtime_of(s.0, s.1, ls),
            );
            group_at(ss, ls, listen) == (if here.len() == 0 {
                None
            } else {
                Some(here)
            })
        }),
{
    lemma_servers_here(ss, ls, listen);
}

proof fn lemma_servers_here(
    ss: Seq<(Seq<char>, ServerView)>,
    ls: Seq<(Seq<char>, LocationView)>,
    listen: Seq<char>,
)
    ensures
        servers_at(ss, ls, listen) == ss.filter(
            |s: (Seq<char>, ServerView)| s.1.listen == listen,
        ).map_values(|s: (Seq<char>, ServerView)| runtime_of(s.0, s.1, ls)),
    decreases ss.len(),
{
    reveal(Seq::filter);
    let here = |s: (Seq<char>, ServerView)| s.1.listen == listen;
    let run = |s: (Seq<char>, ServerView)| runtime_of(s.0, s.1, ls);
    if ss.len() == 0 {
        assert(ss.filter(here).map_values(run) =~= seq![]);
    } else {
        let rest = ss.drop_last();
        lemma_servers_here(rest, ls, listen);
        if here(ss.last()) {
            assert(ss.filter(here).map_values(run) =~= rest.filter(here).map_values(run).push(
                run(ss.last()),
            ));
        }
    }
}

/// For TLS the same holds of the addresses in the TLS settings; the settings in
/// force at an address are those of the first server, here at `i`, that names it.
pub proof fn servers_listen_for_tls(
    ss: Seq<(Seq<char>, ServerView)>,
    ls: Seq<(Seq<char>, LocationView)>,
    listen: Seq<char>,
    i: int,
)
    requires
        0 <= i <= ss.len(),
        i < ss.len() ==> (ss[i].1.tls matches Some(t) && t.listen == listen),
        forall|j: int|
            0 <= j < i ==> !((#[trigger] ss[j]).1.tls matches Some(t) && t.listen == listen),
    ensures
        ({
            let here = ss.filter(
                |s: (Seq<char>, ServerView)| s.1.tls matches Some(t) && t.listen == listen,
            ).map_values(|s: (Seq<char>, ServerView)| runtime_of(s.0, s.1, ls));
            match tls_group_at(ss, ls, listen) {
                Some(g) => i < ss.len() && g.listen == listen && Some(g.tls) == ss[i].1.tls && g.servers
                    == here,
                None => i == ss.len(),
            }
        }),
{
    lemma_tls_here(ss, ls, listen);
    lemma_first_settings(ss, listen, i);
}

proof fn lemma_first_settings(ss: Seq<(Seq<char>, ServerView)>, listen: Seq<char>, i: int)
    requires
        0 <= i <= ss.len(),
        i < ss.len() ==> (ss[i].1.tls matches Some(t) && t.listen == listen),
        forall|j: int|
            0 <= j < i ==> !((#[trigger] ss[j]).1.tls matches Some(t) && t.listen == listen),
    ensures
        tls_settings_at(ss, listen) == (if i < ss.len() {
            ss[i].1.tls
        } else {
            None
        }),
    decreases ss.len(),
{
    if ss.len() > 0 {
        let rest = ss.drop_last();
        assert(forall|j: int| 0 <= j < rest.len() ==> #[trigger] rest[j] == ss[j]);
        if i < ss.len() - 1 {
            lemma_first_settings(rest, listen, i);
        } else {
            lemma_first_settings(rest, listen, rest.len() as int);
            assert(ss.last() == ss[ss.len() - 1]);
        }
    }
}

proof fn lemma_tls_here(
    ss: Seq<(Seq<char>, ServerView)>,
    ls: Seq<(Seq<char>, LocationView)>,
    listen: Seq<char>,
)
    ensures
        tls_servers_at(ss, ls, listen) == ss.filter(
            |s: (Seq<char>, ServerView)| s.1.tls matches Some(t) && t.listen == listen,
        ).map_values(|s: (Seq<char>, ServerView)| runtime_of(s.0, s.1, ls)),
    decreases ss.len(),
{
    reveal(Seq::filter);
    let here = |s: (Seq<char>, ServerView)| s.1.tls matches Some(t) && t.listen == listen;
    let run = |s: (Seq<char>, ServerView)| runtime_of(s.0, s.1, ls);
    if ss.len() == 0 {
        assert(ss.filter(here).map_values(run) =~= seq![]);
    } else {
        let rest = ss.drop_last();
        lemma_tls_here(rest, ls, listen);
        if here(ss.last()) {
            assert(ss.filter(here).map_values(run) =~= rest.filter(here).map_values(run).push(
                run(ss.last()),
            ));
        }
    }
}

} // verus!
