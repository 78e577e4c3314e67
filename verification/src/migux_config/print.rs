//! The configuration as it is shown.
use super::global::{GlobalConfig, GlobalView};
use super::http::{HttpConfig, HttpView};
use super::location::{LocationConfig, LocationType, LocationView};
use super::migux::{ConfigView, MiguxConfig};
use super::server::{ServerConfig, ServerView};
use super::tls::{TlsConfig, TlsView};
use super::upstream::{ServersView, UpstreamServers, UpstreamView};
use crate::listing::{
    self, push_flag, push_heading, push_line, push_number, push_option, push_option_number,
    show_list,
};
use crate::number;
use crate::text::{concat3, copy_str};
use vstd::prelude::*;

verus! {

/// The servers of an upstream as they are shown.
pub open spec fn servers_text(v: ServersView) -> Seq<char> {
    match v {
        ServersView::One(s) => s,
        ServersView::Many(l) => listing::list_text(l),
    }
}

impl UpstreamServers {
    /// The servers as they are shown.
    pub fn show(&self) -> (r: String)
        ensures
            r@ == servers_text(self.deep_view()),
    {
        match self {
            UpstreamServers::One(s) => copy_str(s.as_str()),
            UpstreamServers::Many(l) => show_list(l),
        }
    }
}

/// A number of fewer bits as one of more.
pub open spec fn widened(o: Option<u32>) -> Option<u64> {
    match o {
        Some(n) => Some(n as u64),
        None => None,
    }
}

/// An optional number, without its limits.
pub open spec fn as_nat(o: Option<u64>) -> Option<nat> {
    match o {
        Some(n) => Some(n as nat),
        None => None,
    }
}

/// A number of fewer bits as one of more.
fn widen(o: Option<u32>) -> (r: Option<u64>)
    ensures
        r == widened(o),
{
    match o {
        Some(n) => Some(n as u64),
        None => None,
    }
}

/// The lines that show the global settings.
pub open spec fn global_lines(v: GlobalView) -> Seq<Seq<char>> {
    seq![
        "\n[global]"@,
        "  worker_processes     = "@ + number::decimal(v.worker_processes as nat),
        "  worker_connections   = "@ + number::decimal(v.worker_connections as nat),
        "  log_level            = "@ + v.log_level,
        "  error_log            = "@ + v.error_log,
    ]
}

/// The lines that show the HTTP settings.
pub open spec fn http_lines(v: HttpView) -> Seq<Seq<char>> {
    seq![
        "\n[http]"@,
        "  sendfile             = "@ + listing::flag_text(v.sendfile),
        "  keepalive_timeout    = "@ + number::decimal(v.keepalive_timeout_secs as nat),
        "  access_log           = "@ + v.access_log,
        "  client_read_timeout_secs = "@ + number::decimal(v.client_read_timeout_secs as nat),
        "  proxy_connect_timeout_secs = "@ + number::decimal(v.proxy_connect_timeout_secs as nat),
        "  proxy_read_timeout_secs = "@ + number::decimal(v.proxy_read_timeout_secs as nat),
        "  proxy_write_timeout_secs = "@ + number::decimal(v.proxy_write_timeout_secs as nat),
        "  proxy_pool_max_per_addr = "@ + number::decimal(v.proxy_pool_max_per_addr as nat),
        "  proxy_pool_idle_timeout_secs = "@ + number::decimal(v.proxy_pool_idle_timeout_secs as nat),
        "  max_request_headers_bytes = "@ + number::decimal(v.max_request_headers_bytes as nat),
        "  max_request_body_bytes = "@ + number::decimal(v.max_request_body_bytes as nat),
        "  max_upstream_response_headers_bytes = "@ + number::decimal(v.max_upstream_response_headers_bytes as nat),
        "  max_upstream_response_body_bytes = "@ + number::decimal(v.max_upstream_response_body_bytes as nat),
        "  cache_dir       = "@ + listing::option_text(v.cache_dir),
        "  cache_default_ttl_secs       = "@ + listing::option_number(as_nat(widened(v.cache_default_ttl_secs))),
        "  cache_max_object_bytes       = "@ + listing::option_number(as_nat(v.cache_max_object_bytes)),
    ]
}

/// The lines that show an upstream.
pub open spec fn upstream_lines(name: Seq<char>, v: UpstreamView) -> Seq<Seq<char>> {
    seq!["  upstream "@ + name + ":"@, "    server   = "@ + servers_text(v.server)]
}

/// The lines that show TLS settings.
pub open spec fn tls_lines(v: TlsView) -> Seq<Seq<char>> {
    seq![
        "    tls.listen        = "@ + v.listen,
        "    tls.cert_path     = "@ + v.cert_path,
        "    tls.key_path      = "@ + v.key_path,
        "    tls.redirect_http = "@ + listing::flag_text(v.redirect_http),
        "    tls.http2         = "@ + listing::flag_text(v.http2),
    ] + (match v.hsts_max_age_secs {
        Some(n) => seq![
            "    tls.hsts_max_age_secs = "@ + number::decimal(n as nat),
            "    tls.hsts_include_subdomains = "@ + listing::flag_text(
                v.hsts_include_subdomains == Some(true),
            ),
        ],
        None => seq![],
    })
}

/// The lines that show a server.
pub open spec fn server_lines(name: Seq<char>, v: ServerView) -> Seq<Seq<char>> {
    seq![
        "  server "@ + name + ":"@,
        "    listen      = "@ + v.listen,
        "    server_name = "@ + v.server_name,
        "    root        = "@ + v.root,
        "    index       = "@ + v.index,
    ] + (match v.tls {
        Some(t) => tls_lines(t),
        None => seq![],
    })
}

/// The kind of a location as it is shown.
pub open spec fn kind_text(k: LocationType) -> Seq<char> {
    match k {
        LocationType::Static => "Static"@,
        LocationType::Proxy => "Proxy"@,
    }
}

/// The lines that show a location.
pub open spec fn location_lines(name: Seq<char>, v: LocationView) -> Seq<Seq<char>> {
    seq![
        "  location "@ + name + ":"@,
        "    server       = "@ + v.server,
        "    path         = "@ + v.path,
        "    type         = "@ + kind_text(v.kind),
        "    root         = "@ + listing::option_text(v.root),
        "    index        = "@ + listing::option_text(v.index),
        "    upstream     = "@ + listing::option_text(v.upstream),
        "    strip_prefix = "@ + listing::option_text(v.strip_prefix),
    ]
}

/// The lines that show all upstreams.
pub open spec fn all_upstream_lines(s: Seq<(Seq<char>, UpstreamView)>) -> Seq<Seq<char>>
    decreases s.len(),
{
    if s.len() == 0 {
        seq!["\n[upstream]"@]
    } else {
        all_upstream_lines(s.drop_last()) + upstream_lines(s.last().0, s.last().1)
    }
}

/// The lines that show all servers.
pub open spec fn all_server_lines(s: Seq<(Seq<char>, ServerView)>) -> Seq<Seq<char>>
    decreases s.len(),
{
    if s.len() == 0 {
        seq!["\n[server]"@]
    } else {
        all_server_lines(s.drop_last()) + server_lines(s.last().0, s.last().1)
    }
}

/// The lines that show all locations.
pub open spec fn all_location_lines(s: Seq<(Seq<char>, LocationView)>) -> Seq<Seq<char>>
    decreases s.len(),
{
    if s.len() == 0 {
        seq!["\n[location]"@]
    } else {
        all_location_lines(s.drop_last()) + location_lines(s.last().0, s.last().1)
    }
}

/// The lines that show a configuration.
pub open spec fn config_lines(v: ConfigView) -> Seq<Seq<char>> {
    seq!["================ MIGUX CONFIG ================"@] + global_lines(v.global)
        + http_lines(v.http) + all_upstream_lines(v.upstream) + all_server_lines(v.servers)
        + all_location_lines(v.location) + seq!["=============================================="@]
}

/// Adds the lines that show the global settings.
fn print_global(out: &mut Vec<String>, g: &GlobalConfig)
    ensures
        final(out).deep_view() == old(out).deep_view() + global_lines(g.deep_view()),
{
    let ghost before = out.deep_view();
    push_heading(out, "\n[global]");
    push_number(out, "  worker_processes     = ", g.worker_processes as u128);
    push_number(out, "  worker_connections   = ", g.worker_connections as u128);
    push_line(out, "  log_level            = ", g.log_level.as_str());
    push_line(out, "  error_log            = ", g.error_log.as_str());
    assert(out.deep_view() =~= before + global_lines(g.deep_view()));
}

/// Adds the lines that show the HTTP settings.
fn print_http(out: &mut Vec<String>, h: &HttpConfig)
    ensures
        final(out).deep_view() == old(out).deep_view() + http_lines(h.deep_view()),
{
    let ghost before = out.deep_view();
    push_heading(out, "\n[http]");
    push_flag(out, "  sendfile             = ", h.sendfile);
    push_number(out, "  keepalive_timeout    = ", h.keepalive_timeout_secs as u128);
    push_line(out, "  access_log           = ", h.access_log.as_str());
    push_number(out, "  client_read_timeout_secs = ", h.client_read_timeout_secs as u128);
    push_number(out, "  proxy_connect_timeout_secs = ", h.proxy_connect_timeout_secs as u128);
    push_number(out, "  proxy_read_timeout_secs = ", h.proxy_read_timeout_secs as u128);
    push_number(out, "  proxy_write_timeout_secs = ", h.proxy_write_timeout_secs as u128);
    push_number(out, "  proxy_pool_max_per_addr = ", h.proxy_pool_max_per_addr as u128);
    push_number(out, "  proxy_pool_idle_timeout_secs = ", h.proxy_pool_idle_timeout_secs as u128);
    push_number(out, "  max_request_headers_bytes = ", h.max_request_headers_bytes as u128);
    push_number(out, "  max_request_body_bytes = ", h.max_request_body_bytes as u128);
    push_number(out, "  max_upstream_response_headers_bytes = ", h.max_upstream_response_headers_bytes as u128);
    push_number(out, "  max_upstream_response_body_bytes = ", h.max_upstream_response_body_bytes as u128);
    push_option(out, "  cache_dir       = ", &h.cache_dir);
    push_option_number(out, "  cache_default_ttl_secs       = ", widen(h.cache_default_ttl_secs));
    push_option_number(out, "  cache_max_object_bytes       = ", h.cache_max_object_bytes);
    assert(out.deep_view() =~= before + http_lines(h.deep_view()));
}

/// Adds the lines that show TLS settings.
fn print_tls(out: &mut Vec<String>, t: &TlsConfig)
    ensures
        final(out).deep_view() == old(out).deep_view() + tls_lines(t.deep_view()),
{
    let ghost before = out.deep_view();
    push_line(out, "    tls.listen        = ", t.listen.as_str());
    push_line(out, "    tls.cert_path     = ", t.cert_path.as_str());
    push_line(out, "    tls.key_path      = ", t.key_path.as_str());
    push_flag(out, "    tls.redirect_http = ", t.redirect_http);
    push_flag(out, "    tls.http2         = ", t.http2);
    match t.hsts_max_age_secs {
        Some(n) => {
            push_number(out, "    tls.hsts_max_age_secs = ", n as u128);
            let sub = match t.hsts_include_subdomains {
                Some(b) => b,
                None => false,
            };
            push_flag(out, "    tls.hsts_include_subdomains = ", sub);
        },
        None => {},
    }
    assert(out.deep_view() =~= before + tls_lines(t.deep_view()));
}

/// Adds the lines that show a server.
fn print_server(out: &mut Vec<String>, name: &str, s: &ServerConfig)
    ensures
        final(out).deep_view() == old(out).deep_view() + server_lines(name@, s.deep_view()),
{
    let ghost before = out.deep_view();
    let head = concat3("  server ", name, ":");
    push_heading(out, head.as_str());
    push_line(out, "    listen      = ", s.listen.as_str());
    push_line(out, "    server_name = ", s.server_name.as_str());
    push_line(out, "    root        = ", s.root.as_str());
    push_line(out, "    index       = ", s.index.as_str());
    match &s.tls {
        Some(t) => print_tls(out, t),
        None => {},
    }
    assert(out.deep_view() =~= before + server_lines(name@, s.deep_view()));
}

/// Adds the lines that show a location.
fn print_location(out: &mut Vec<String>, name: &str, l: &LocationConfig)
    ensures
        final(out).deep_view() == old(out).deep_view() + location_lines(name@, l.deep_view()),
{
    let ghost before = out.deep_view();
    let head = concat3("  location ", name, ":");
    push_heading(out, head.as_str());
    push_line(out, "    server       = ", l.server.as_str());
    push_line(out, "    path         = ", l.path.as_str());
    match l.kind {
        LocationType::Static => push_line(out, "    type         = ", "Static"),
        LocationType::Proxy => push_line(out, "    type         = ", "Proxy"),
    }
    push_option(out, "    root         = ", &l.root);
    push_option(out, "    index        = ", &l.index);
    push_option(out, "    upstream     = ", &l.upstream);
    push_option(out, "    strip_prefix = ", &l.strip_prefix);
    assert(out.deep_view() =~= before + location_lines(name@, l.deep_view()));
}

impl MiguxConfig {
    /// Adds the lines that show all upstreams.
    fn print_upstreams(&self, out: &mut Vec<String>)
        ensures
            final(out).deep_view() == old(out).deep_view() + all_upstream_lines(
                self.upstream.deep_view(),
            ),
    {
        let ghost before = out.deep_view();
        let ghost all = self.upstream.deep_view();
        push_heading(out, "\n[upstream]");
        assert(all.take(0) =~= seq![]);
        assert(out.deep_view() =~= before + all_upstream_lines(all.take(0)));
        for i in 0..self.upstream.entries.len()
            invariant
                all == self.upstream.deep_view(),
                out.deep_view() == before + all_upstream_lines(all.take(i as int)),
        {
            let ghost seen = all.take(i + 1);
            assert(seen.drop_last() =~= all.take(i as int));
            assert(seen.last() == all[i as int]);
            let head = concat3("  upstream ", self.upstream.entries[i].0.as_str(), ":");
            push_heading(out, head.as_str());
            let shown = self.upstream.entries[i].1.server.show();
            push_line(out, "    server   = ", shown.as_str());
            assert(out.deep_view() =~= before + all_upstream_lines(seen));
        }
        assert(all.take(all.len() as int) =~= all);
    }

    /// Adds the lines that show all servers.
    fn print_servers(&self, out: &mut Vec<String>)
        ensures
            final(out).deep_view() == old(out).deep_view() + all_server_lines(
                self.servers.deep_view(),
            ),
    {
        let ghost before = out.deep_view();
        let ghost all = self.servers.deep_view();
        push_heading(out, "\n[server]");
        assert(all.take(0) =~= seq![]);
        assert(out.deep_view() =~= before + all_server_lines(all.take(0)));
        for i in 0..self.servers.entries.len()
            invariant
                all == self.servers.deep_view(),
                out.deep_view() == before + all_server_lines(all.take(i as int)),
        {
            let ghost seen = all.take(i + 1);
            assert(seen.drop_last() =~= all.take(i as int));
            assert(seen.last() == all[i as int]);
            print_server(out, self.servers.entries[i].0.as_str(), &self.servers.entries[i].1);
            assert(out.deep_view() =~= before + all_server_lines(seen));
        }
        assert(all.take(all.len() as int) =~= all);
    }

    /// Adds the lines that show all locations.
    fn print_locations(&self, out: &mut Vec<String>)
        ensures
            final(out).deep_view() == old(out).deep_view() + all_location_lines(
                self.location.deep_view(),
            ),
    {
        let ghost before = out.deep_view();
        let ghost all = self.location.deep_view();
        push_heading(out, "\n[location]");
        assert(all.take(0) =~= seq![]);
        assert(out.deep_view() =~= before + all_location_lines(all.take(0)));
        for i in 0..self.location.entries.len()
            invariant
                all == self.location.deep_view(),
                out.deep_view() == before + all_location_lines(all.take(i as int)),
        {
            let ghost seen = all.take(i + 1);
            assert(seen.drop_last() =~= all.take(i as int));
            assert(seen.last() == all[i as int]);
            print_location(out, self.location.entries[i].0.as_str(), &self.location.entries[i].1);
            assert(out.deep_view() =~= before + all_location_lines(seen));
        }
        assert(all.take(all.len() as int) =~= all);
    }

    /// The lines that show the configuration.
    pub fn print(&self) -> (r: Vec<String>)
        ensures
            r.deep_view() == config_lines(self.deep_view()),
    {
        let mut out: Vec<String> = Vec::new();
        assert(out.deep_view() =~= seq![]);
        push_heading(&mut out, "================ MIGUX CONFIG ================");
        print_global(&mut out, &self.global);
        print_http(&mut out, &self.http);
        self.print_upstreams(&mut out);
        self.print_servers(&mut out);
        self.print_locations(&mut out);
        push_heading(&mut out, "==============================================");
        assert(out.deep_view() =~= config_lines(self.deep_view()));
        out
    }
}

// ---------------------------------------------------------------------------
// Every setting is listed
// ---------------------------------------------------------------------------

/// Each general setting has a line of its own, in a fixed order between the two
/// rules.
pub proof fn general_settings_are_listed(v: ConfigView)
    ensures
        ({
            let lines = config_lines(v);
            &&& lines.len() >= 24
            &&& lines[0] == "================ MIGUX CONFIG ================"@
            &&& lines[1] == "\n[global]"@
            &&& lines[2] == "  worker_processes     = "@ + number::decimal(v.global.worker_processes as nat)
            &&& lines[3] == "  worker_connections   = "@ + number::decimal(v.global.worker_connections as nat)
            &&& lines[4] == "  log_level            = "@ + v.global.log_level
            &&& lines[5] == "  error_log            = "@ + v.global.error_log
            &&& lines[6] == "\n[http]"@
            &&& lines[7] == "  sendfile             = "@ + (if v.http.sendfile {
                "true"@
            } else {
                "false"@
            })
            &&& lines[8] == "  keepalive_timeout    = "@ + number::decimal(v.http.keepalive_timeout_secs as nat)
            &&& lines[9] == "  access_log           = "@ + v.http.access_log
            &&& lines[10] == "  client_read_timeout_secs = "@ + number::decimal(
                v.http.client_read_timeout_secs as nat,
            )
            &&& lines[11] == "  proxy_connect_timeout_secs = "@ + number::decimal(
                v.http.proxy_connect_timeout_secs as nat,
            )
            &&& lines[12] == "  proxy_read_timeout_secs = "@ + number::decimal(
                v.http.proxy_read_timeout_secs as nat,
            )
            &&& lines[13] == "  proxy_write_timeout_secs = "@ + number::decimal(
                v.http.proxy_write_timeout_secs as nat,
            )
            &&& lines[14] == "  proxy_pool_max_per_addr = "@ + number::decimal(
                v.http.proxy_pool_max_per_addr as nat,
            )
            &&& lines[15] == "  proxy_pool_idle_timeout_secs = "@ + number::decimal(
                v.http.proxy_pool_idle_timeout_secs as nat,
            )
            &&& lines[16] == "  max_request_headers_bytes = "@ + number::decimal(
                v.http.max_request_headers_bytes as nat,
            )
            &&& lines[17] == "  max_request_body_bytes = "@ + number::decimal(
                v.http.max_request_body_bytes as nat,
            )
            &&& lines[18] == "  max_upstream_response_headers_bytes = "@ + number::decimal(
                v.http.max_upstream_response_headers_bytes as nat,
            )
            &&& lines[19] == "  max_upstream_response_body_bytes = "@ + number::decimal(
                v.http.max_upstream_response_body_bytes as nat,
            )
            &&& v.http.cache_dir is Some ==> lines[20] == "  cache_dir       = "@ + ("Some("@ + listing::quoted(
                v.http.cache_dir->0,
            ) + ")"@)
            &&& v.http.cache_dir is None ==> lines[20] == "  cache_dir       = "@ + "None"@
            &&& v.http.cache_default_ttl_secs is Some ==> lines[21] == "  cache_default_ttl_secs       = "@ + ("Some("@ + number::decimal(
                v.http.cache_default_ttl_secs->0 as nat,
            ) + ")"@)
            &&& v.http.cache_default_ttl_secs is None ==> lines[21] == "  cache_default_ttl_secs       = "@ + "None"@
            &&& v.http.cache_max_object_bytes is Some ==> lines[22] == "  cache_max_object_bytes       = "@ + ("Some("@ + number::decimal(
                v.http.cache_max_object_bytes->0 as nat,
            ) + ")"@)
            &&& v.http.cache_max_object_bytes is None ==> lines[22] == "  cache_max_object_bytes       = "@ + "None"@
            &&& lines.last() == "=============================================="@
        }),
{
    let front = seq!["================ MIGUX CONFIG ================"@] + global_lines(v.global)
        + http_lines(v.http);
    let rest = all_upstream_lines(v.upstream) + all_server_lines(v.servers) + all_location_lines(
        v.location,
    ) + seq!["=============================================="@];
    let lines = config_lines(v);
    assert(lines =~= front + rest);
    assert(front.len() == 23);
    assert forall|k: int| 0 <= k < 23 implies lines[k] == #[trigger] front[k] by {}
    assert forall|k: int| 0 <= k < 5 implies #[trigger] front[k + 1] == global_lines(v.global)[k] by {}
    assert forall|k: int| 0 <= k < 17 implies #[trigger] front[k + 6] == http_lines(v.http)[k] by {}
    assert(front[1] == global_lines(v.global)[0]);
    assert(front[2] == global_lines(v.global)[1]);
    assert(front[3] == global_lines(v.global)[2]);
    assert(front[4] == global_lines(v.global)[3]);
    assert(front[5] == global_lines(v.global)[4]);
    assert(front[6] == http_lines(v.http)[0]);
    assert(front[7] == http_lines(v.http)[1]);
    assert(front[8] == http_lines(v.http)[2]);
    assert(front[9] == http_lines(v.http)[3]);
    assert(front[10] == http_lines(v.http)[4]);
    assert(front[11] == http_lines(v.http)[5]);
    assert(front[12] == http_lines(v.http)[6]);
    assert(front[13] == http_lines(v.http)[7]);
    assert(front[14] == http_lines(v.http)[8]);
    assert(front[15] == http_lines(v.http)[9]);
    assert(front[16] == http_lines(v.http)[10]);
    assert(front[17] == http_lines(v.http)[11]);
    assert(front[18] == http_lines(v.http)[12]);
    assert(front[19] == http_lines(v.http)[13]);
    assert(front[20] == http_lines(v.http)[14]);
    assert(front[21] == http_lines(v.http)[15]);
    assert(front[22] == http_lines(v.http)[16]);
}

proof fn lemma_upstream_placed(s: Seq<(Seq<char>, UpstreamView)>, i: int) -> (r: (
    Seq<Seq<char>>,
    Seq<Seq<char>>,
))
    requires
        0 <= i < s.len(),
    ensures
        all_upstream_lines(s) == r.0 + upstream_lines(s[i].0, s[i].1) + r.1,
    decreases s.len(),
{
    let here = upstream_lines(s[i].0, s[i].1);
    if i == s.len() - 1 {
        let before = all_upstream_lines(s.drop_last());
        let none = Seq::<Seq<char>>::empty();
        assert(all_upstream_lines(s) =~= before + here + none);
        (before, none)
    } else {
        let (a, b) = lemma_upstream_placed(s.drop_last(), i);
        let last = upstream_lines(s.last().0, s.last().1);
        assert(a + here + b + last =~= a + here + (b + last));
        (a, b + last)
    }
}

proof fn lemma_server_placed(s: Seq<(Seq<char>, ServerView)>, i: int) -> (r: (
    Seq<Seq<char>>,
    Seq<Seq<char>>,
))
    requires
        0 <= i < s.len(),
    ensures
        all_server_lines(s) == r.0 + server_lines(s[i].0, s[i].1) + r.1,
    decreases s.len(),
{
    let here = server_lines(s[i].0, s[i].1);
    if i == s.len() - 1 {
        let before = all_server_lines(s.drop_last());
        let none = Seq::<Seq<char>>::empty();
        assert(all_server_lines(s) =~= before + here + none);
        (before, none)
    } else {
        let (a, b) = lemma_server_placed(s.drop_last(), i);
        let last = server_lines(s.last().0, s.last().1);
        assert(a + here + b + last =~= a + here + (b + last));
        (a, b + last)
    }
}

proof fn lemma_location_placed(s: Seq<(Seq<char>, LocationView)>, i: int) -> (r: (
    Seq<Seq<char>>,
    Seq<Seq<char>>,
))
    requires
        0 <= i < s.len(),
    ensures
        all_location_lines(s) == r.0 + location_lines(s[i].0, s[i].1) + r.1,
    decreases s.len(),
{
    let here = location_lines(s[i].0, s[i].1);
    if i == s.len() - 1 {
        let before = all_location_lines(s.drop_last());
        let none = Seq::<Seq<char>>::empty();
        assert(all_location_lines(s) =~= before + here + none);
        (before, none)
    } else {
        let (a, b) = lemma_location_placed(s.drop_last(), i);
        let last = location_lines(s.last().0, s.last().1);
        assert(a + here + b + last =~= a + here + (b + last));
        (a, b + last)
    }
}

/// Each upstream is listed with its name and its servers.
pub proof fn upstreams_are_listed(v: ConfigView, i: int)
    requires
        0 <= i < v.upstream.len(),
    ensures
        ({
            let u = v.upstream[i].1;
            let shown = match u.server {
                ServersView::One(s) => s,
                ServersView::Many(l) => listing::list_text(l),
            };
            listing::stand_among(
                seq![
                    "  upstream "@ + v.upstream[i].0 + ":"@,
                    "    server   = "@ + shown,
                ],
                config_lines(v),
            )
        }),
{
    let (a, b) = lemma_upstream_placed(v.upstream, i);
    let here = upstream_lines(v.upstream[i].0, v.upstream[i].1);
    let front = seq!["================ MIGUX CONFIG ================"@] + global_lines(v.global)
        + http_lines(v.http) + a;
    let back = b + all_server_lines(v.servers) + all_location_lines(v.location) + seq![
        "=============================================="@,
    ];
    assert(config_lines(v) =~= front + here + back);
}

/// Each server is listed with its name and what is set of it, and with what is set
/// of TLS where it has that.
pub proof fn servers_are_listed(v: ConfigView, i: int)
    requires
        0 <= i < v.servers.len(),
    ensures
        ({
            let s = v.servers[i].1;
            let t = s.tls->0;
            let plain = seq![
                "  server "@ + v.servers[i].0 + ":"@,
                "    listen      = "@ + s.listen,
                "    server_name = "@ + s.server_name,
                "    root        = "@ + s.root,
                "    index       = "@ + s.index,
            ];
            let tls = seq![
                "    tls.listen        = "@ + t.listen,
                "    tls.cert_path     = "@ + t.cert_path,
                "    tls.key_path      = "@ + t.key_path,
                "    tls.redirect_http = "@ + listing::flag_text(t.redirect_http),
                "    tls.http2         = "@ + listing::flag_text(t.http2),
            ];
            let hsts = seq![
                "    tls.hsts_max_age_secs = "@ + number::decimal(t.hsts_max_age_secs->0 as nat),
                "    tls.hsts_include_subdomains = "@ + listing::flag_text(
                    t.hsts_include_subdomains == Some(true),
                ),
            ];
            let shown = if s.tls is None {
                plain
            } else if t.hsts_max_age_secs is None {
                plain + tls
            } else {
                plain + tls + hsts
            };
            listing::stand_among(shown, config_lines(v))
        }),
{
    let (a, b) = lemma_server_placed(v.servers, i);
    let s = v.servers[i].1;
    let here = server_lines(v.servers[i].0, s);
    let front = seq!["================ MIGUX CONFIG ================"@] + global_lines(v.global)
        + http_lines(v.http) + all_upstream_lines(v.upstream) + a;
    let back = b + all_location_lines(v.location) + seq![
        "=============================================="@,
    ];
    assert(config_lines(v) =~= front + here + back);
    let plain = seq![
        "  server "@ + v.servers[i].0 + ":"@,
        "    listen      = "@ + s.listen,
        "    server_name = "@ + s.server_name,
        "    root        = "@ + s.root,
        "    index       = "@ + s.index,
    ];
    match s.tls {
        None => {
            assert(here =~= plain);
        },
        Some(t) => {
            let tls = seq![
                "    tls.listen        = "@ + t.listen,
                "    tls.cert_path     = "@ + t.cert_path,
                "    tls.key_path      = "@ + t.key_path,
                "    tls.redirect_http = "@ + listing::flag_text(t.redirect_http),
                "    tls.http2         = "@ + listing::flag_text(t.http2),
            ];
            match t.hsts_max_age_secs {
                None => {
                    assert(tls_lines(t) =~= tls);
                    assert(here =~= plain + tls);
                },
                Some(n) => {
                    let hsts = seq![
                        "    tls.hsts_max_age_secs = "@ + number::decimal(n as nat),
                        "    tls.hsts_include_subdomains = "@ + listing::flag_text(
                            t.hsts_include_subdomains == Some(true),
                        ),
                    ];
                    assert(here =~= plain + tls + hsts);
                },
            }
        },
    }
}

/// Each location is listed with its name and what is set of it.
pub proof fn locations_are_listed(v: ConfigView, i: int)
    requires
        0 <= i < v.location.len(),
    ensures
        ({
            let l = v.location[i].1;
            let kind = if l.kind == LocationType::Static {
                "Static"@
            } else {
                "Proxy"@
            };
            listing::stand_among(
                seq![
                    "  location "@ + v.location[i].0 + ":"@,
                    "    server       = "@ + l.server,
                    "    path         = "@ + l.path,
                    "    type         = "@ + kind,
                    "    root         = "@ + listing::option_text(l.root),
                    "    index        = "@ + listing::option_text(l.index),
                    "    upstream     = "@ + listing::option_text(l.upstream),
                    "    strip_prefix = "@ + listing::option_text(l.strip_prefix),
                ],
                config_lines(v),
            )
        }),
{
    let (a, b) = lemma_location_placed(v.location, i);
    let here = location_lines(v.location[i].0, v.location[i].1);
    let front = seq!["================ MIGUX CONFIG ================"@] + global_lines(v.global)
        + http_lines(v.http) + all_upstream_lines(v.upstream) + all_server_lines(v.servers) + a;
    let back = b + seq!["=============================================="@];
    assert(config_lines(v) =~= front + here + back);
}

proof fn lemma_upstream_heading(s: Seq<(Seq<char>, UpstreamView)>) -> (r: Seq<Seq<char>>)
    ensures
        all_upstream_lines(s) == seq!["\n[upstream]"@] + r,
    decreases s.len(),
{
    if s.len() == 0 {
        let none = Seq::<Seq<char>>::empty();
        assert(all_upstream_lines(s) =~= seq!["\n[upstream]"@] + none);
        none
    } else {
        let r = lemma_upstream_heading(s.drop_last());
        let last = upstream_lines(s.last().0, s.last().1);
        assert(all_upstream_lines(s) =~= seq!["\n[upstream]"@] + (r + last));
        r + last
    }
}

proof fn lemma_server_heading(s: Seq<(Seq<char>, ServerView)>) -> (r: Seq<Seq<char>>)
    ensures
        all_server_lines(s) == seq!["\n[server]"@] + r,
    decreases s.len(),
{
    if s.len() == 0 {
        let none = Seq::<Seq<char>>::empty();
        assert(all_server_lines(s) =~= seq!["\n[server]"@] + none);
        none
    } else {
        let r = lemma_server_heading(s.drop_last());
        let last = server_lines(s.last().0, s.last().1);
        assert(all_server_lines(s) =~= seq!["\n[server]"@] + (r + last));
        r + last
    }
}

proof fn lemma_location_heading(s: Seq<(Seq<char>, LocationView)>) -> (r: Seq<Seq<char>>)
    ensures
        all_location_lines(s) == seq!["\n[location]"@] + r,
    decreases s.len(),
{
    if s.len() == 0 {
        let none = Seq::<Seq<char>>::empty();
        assert(all_location_lines(s) =~= seq!["\n[location]"@] + none);
        none
    } else {
        let r = lemma_location_heading(s.drop_last());
        let last = location_lines(s.last().0, s.last().1);
        assert(all_location_lines(s) =~= seq!["\n[location]"@] + (r + last));
        r + last
    }
}

/// The upstreams, the servers and the locations are listed under headings, in this
/// order, behind the general settings.
pub proof fn sections_have_headings(v: ConfigView)
    ensures
        exists|a: Seq<Seq<char>>, b: Seq<Seq<char>>, c: Seq<Seq<char>>, d: Seq<Seq<char>>|
            config_lines(v) == #[trigger] in_sections(a, b, c, d),
{
    let a = seq!["================ MIGUX CONFIG ================"@] + global_lines(v.global) + http_lines(v.http);
    let b = lemma_upstream_heading(v.upstream);
    let c = lemma_server_heading(v.servers);
    let d = lemma_location_heading(v.location);
    assert(config_lines(v) =~= in_sections(a, b, c, d));
}

/// Lines in sections: general ones, upstreams, servers and locations.
pub open spec fn in_sections(
    a: Seq<Seq<char>>,
    b: Seq<Seq<char>>,
    c: Seq<Seq<char>>,
    d: Seq<Seq<char>>,
) -> Seq<Seq<char>> {
    a + (seq!["\n[upstream]"@] + b) + (seq!["\n[server]"@] + c) + (seq!["\n[location]"@] + d) + seq![
        "=============================================="@,
    ]
}

} // verus!
