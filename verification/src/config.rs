//! A smaller configuration: a server, its locations and its upstreams, without
//! limits, caches or TLS.
use crate::listing::{
    self, push_flag, push_heading, push_line, push_number, push_option,
};
use crate::migux_config::global::{self, GlobalView};
use crate::named::{self, Named};
use crate::number;
use crate::text::{concat3, copy_str, is_empty};
use vstd::prelude::*;

pub use crate::migux_config::global::GlobalConfig;

verus! {

/// Settings of the HTTP side.
#[derive(Debug)]
pub struct HttpConfig {
    pub sendfile: bool,
    pub keepalive_timeout_secs: u64,
    pub access_log: String,
}

/// The same, as texts and numbers.
#[verifier::ext_equal]
pub struct HttpView {
    pub sendfile: bool,
    pub keepalive_timeout_secs: u64,
    pub access_log: Seq<char>,
}

impl DeepView for HttpConfig {
    type V = HttpView;

    open spec fn deep_view(&self) -> HttpView {
        HttpView {
            sendfile: self.sendfile,
            keepalive_timeout_secs: self.keepalive_timeout_secs,
            access_log: self.access_log@,
        }
    }
}

/// The default HTTP settings.
pub open spec fn default_http() -> HttpView {
    HttpView {
        sendfile: true,
        keepalive_timeout_secs: 65,
        access_log: "/var/log/migux/access.log"@,
    }
}

impl Default for HttpConfig {
    fn default() -> (r: Self)
        ensures
            r.deep_view() == default_http(),
    {
        HttpConfig {
            sendfile: true,
            keepalive_timeout_secs: 65,
            access_log: copy_str("/var/log/migux/access.log"),
        }
    }
}

/// Settings of one upstream.
#[derive(Debug)]
pub struct UpstreamConfig {
    pub server: String,
    pub strategy: String,
}

/// The same, as texts and numbers.
#[verifier::ext_equal]
pub struct UpstreamView {
    pub server: Seq<char>,
    pub strategy: Seq<char>,
}

impl DeepView for UpstreamConfig {
    type V = UpstreamView;

    open spec fn deep_view(&self) -> UpstreamView {
        UpstreamView {
            server: self.server@,
            strategy: self.strategy@,
        }
    }
}

/// The default settings of an upstream.
pub open spec fn default_upstream() -> UpstreamView {
    UpstreamView {
        server: ""@,
        strategy: "round_robin"@,
    }
}

impl Default for UpstreamConfig {
    fn default() -> (r: Self)
        ensures
            r.deep_view() == default_upstream(),
    {
        UpstreamConfig {
            server: copy_str(""),
            strategy: copy_str("round_robin"),
        }
    }
}

/// Settings of one server.
#[derive(Debug)]
pub struct ServerConfig {
    pub listen: String,
    pub server_name: String,
    pub root: String,
    pub index: String,
}

/// The same, as texts and numbers.
#[verifier::ext_equal]
pub struct ServerView {
    pub listen: Seq<char>,
    pub server_name: Seq<char>,
    pub root: Seq<char>,
    pub index: Seq<char>,
}

impl DeepView for ServerConfig {
    type V = ServerView;

    open spec fn deep_view(&self) -> ServerView {
        ServerView {
            listen: self.listen@,
            server_name: self.server_name@,
            root: self.root@,
            index: self.index@,
        }
    }
}

/// The default settings of a server.
pub open spec fn default_server() -> ServerView {
    ServerView {
        listen: "0.0.0.0:8080"@,
        server_name: "localhost"@,
        root: "./public"@,
        index: "index.html"@,
    }
}

impl Default for ServerConfig {
    fn default() -> (r: Self)
        ensures
            r.deep_view() == default_server(),
    {
        ServerConfig {
            listen: copy_str("0.0.0.0:8080"),
            server_name: copy_str("localhost"),
            root: copy_str("./public"),
            index: copy_str("index.html"),
        }
    }
}

/// Settings of one location, whose kind is "static" or "proxy".
#[derive(Debug)]
pub struct LocationConfig {
    pub server: String,
    pub path: String,
    pub kind: String,
    pub root: Option<String>,
    pub index: Option<String>,
    pub upstream: Option<String>,
    pub strip_prefix: Option<String>,
}

/// The same, as texts and numbers.
#[verifier::ext_equal]
pub struct LocationView {
    pub server: Seq<char>,
    pub path: Seq<char>,
    pub kind: Seq<char>,
    pub root: Option<Seq<char>>,
    pub index: Option<Seq<char>>,
    pub upstream: Option<Seq<char>>,
    pub strip_prefix: Option<Seq<char>>,
}

impl DeepView for LocationConfig {
    type V = LocationView;

    open spec fn deep_view(&self) -> LocationView {
        LocationView {
            server: self.server@,
            path: self.path@,
            kind: self.kind@,
            root: self.root.deep_view(),
            index: self.index.deep_view(),
            upstream: self.upstream.deep_view(),
            strip_prefix: self.strip_prefix.deep_view(),
        }
    }
}

/// The default settings of a location.
pub open spec fn default_location() -> LocationView {
    LocationView {
        server: "main"@,
        path: "/"@,
        kind: "static"@,
        root: None,
        index: None,
        upstream: None,
        strip_prefix: None,
    }
}

impl Default for LocationConfig {
    fn default() -> (r: Self)
        ensures
            r.deep_view() == default_location(),
    {
        LocationConfig {
            server: copy_str("main"),
            path: copy_str("/"),
            kind: copy_str("static"),
            root: None,
            index: None,
            upstream: None,
            strip_prefix: None,
        }
    }
}

/// The configuration.
#[derive(Debug)]
pub struct MiguxConfig {
    pub global: GlobalConfig,
    pub http: HttpConfig,
    pub upstream: Named<UpstreamConfig>,
    pub server: Named<ServerConfig>,
    pub location: Named<LocationConfig>,
}

/// The same, as texts and numbers.
#[verifier::ext_equal]
pub struct ConfigView {
    pub global: GlobalView,
    pub http: HttpView,
    pub upstream: Seq<(Seq<char>, UpstreamView)>,
    pub server: Seq<(Seq<char>, ServerView)>,
    pub location: Seq<(Seq<char>, LocationView)>,
}

impl DeepView for MiguxConfig {
    type V = ConfigView;

    open spec fn deep_view(&self) -> ConfigView {
        ConfigView {
            global: self.global.deep_view(),
            http: self.http.deep_view(),
            upstream: self.upstream.deep_view(),
            server: self.server.deep_view(),
            location: self.location.deep_view(),
        }
    }
}

/// A server with the defaults filled in.
pub open spec fn server_filled(v: ServerView) -> ServerView {
    let d = default_server();
    ServerView {
        listen: global::or_text(v.listen, d.listen),
        server_name: global::or_text(v.server_name, d.server_name),
        root: global::or_text(v.root, d.root),
        index: global::or_text(v.index, d.index),
    }
}

/// Servers with the defaults filled in.
pub open spec fn servers_filled(s: Seq<(Seq<char>, ServerView)>) -> Seq<(Seq<char>, ServerView)> {
    s.map_values(|e: (Seq<char>, ServerView)| (e.0, server_filled(e.1)))
}

/// A location with the defaults filled in: a missing root or index is that of
/// its server.
pub open spec fn location_filled(
    v: LocationView,
    servers: Seq<(Seq<char>, ServerView)>,
) -> LocationView {
    let of = named::find(servers, v.server);
    LocationView {
        kind: global::or_text(v.kind, "static"@),
        root: if v.root is None && of is Some {
            Some(of->0.root)
        } else {
            v.root
        },
        index: if v.index is None && of is Some {
            Some(of->0.index)
        } else {
            v.index
        },
        ..v
    }
}

/// Locations with the defaults filled in.
pub open spec fn locations_filled(
    s: Seq<(Seq<char>, LocationView)>,
    servers: Seq<(Seq<char>, ServerView)>,
) -> Seq<(Seq<char>, LocationView)> {
    s.map_values(|e: (Seq<char>, LocationView)| (e.0, location_filled(e.1, servers)))
}

/// A configuration with the defaults filled in.
pub open spec fn config_filled(v: ConfigView) -> ConfigView {
    let servers = servers_filled(v.server);
    ConfigView {
        global: global::global_with_defaults(v.global, global::default_global()),
        http: HttpView {
            access_log: global::or_text(v.http.access_log, default_http().access_log),
            ..v.http
        },
        upstream: v.upstream,
        server: servers,
        location: locations_filled(v.location, servers),
    }
}

/// Filling in the defaults a second time changes nothing.
pub proof fn defaults_are_idempotent(v: ConfigView)
    ensures
        config_filled(config_filled(v)) == config_filled(v),
{
    let once = config_filled(v);
    let twice = config_filled(once);
    assert(twice.global =~= once.global) by {
        reveal_strlit("info");
        reveal_strlit("/var/log/migux/error.log");
    }
    assert(twice.http =~= once.http) by {
        reveal_strlit("/var/log/migux/access.log");
    }
    assert(twice.server =~= once.server) by {
        reveal_strlit("0.0.0.0:8080");
        reveal_strlit("localhost");
        reveal_strlit("./public");
        reveal_strlit("index.html");
        assert forall|i: int| 0 <= i < once.server.len() implies twice.server[i]
            == once.server[i] by {
            assert(twice.server[i].1 =~= once.server[i].1);
        }
    }
    assert(twice.location =~= once.location) by {
        reveal_strlit("static");
        assert forall|i: int| 0 <= i < once.location.len() implies twice.location[i]
            == once.location[i] by {
            assert(twice.location[i].1 =~= once.location[i].1);
        }
    }
}

impl ServerConfig {
    /// Fills in the defaults.
    fn apply_defaults(&mut self)
        ensures
            final(self).deep_view() == server_filled(old(self).deep_view()),
    {
        let d = ServerConfig::default();
        if is_empty(self.listen.as_str()) {
            self.listen = d.listen;
        }
        if is_empty(self.server_name.as_str()) {
            self.server_name = d.server_name;
        }
        if is_empty(self.root.as_str()) {
            self.root = d.root;
        }
        if is_empty(self.index.as_str()) {
            self.index = d.index;
        }
    }
}

impl LocationConfig {
    /// Fills in the defaults.
    fn apply_defaults(&mut self, servers: &Named<ServerConfig>)
        ensures
            final(self).deep_view() == location_filled(old(self).deep_view(), servers.deep_view()),
    {
        if is_empty(self.kind.as_str()) {
            self.kind = copy_str("static");
        }
        match servers.get(self.server.as_str()) {
            Some(srv) => {
                if self.root.is_none() {
                    self.root = Some(srv.root.clone());
                }
                if self.index.is_none() {
                    self.index = Some(srv.index.clone());
                }
            },
            None => {},
        }
    }
}

/// The configuration where nothing is set.
pub open spec fn blank_config() -> ConfigView {
    ConfigView {
        global: global::default_global(),
        http: default_http(),
        upstream: seq![],
        server: seq![],
        location: seq![],
    }
}

impl MiguxConfig {
    /// The file that is read where none is named.
    pub fn default_file() -> (r: &'static str)
        ensures
            r@ == "migux.conf"@,
    {
        "migux.conf"
    }

    /// The configuration to use where no file is named, given what was read
    /// from the default file.
    pub fn default(read: MiguxConfig) -> (r: Self)
        ensures
            r.deep_view() == config_filled(read.deep_view()),
    {
        Self::from_file(read)
    }

    /// What is read from a file that is not there.
    pub fn blank() -> (r: Self)
        ensures
            r.deep_view() == blank_config(),
    {
        let blank = MiguxConfig {
            global: GlobalConfig::default(),
            http: HttpConfig::default(),
            upstream: Named::new(),
            server: Named::new(),
            location: Named::new(),
        };
        assert(blank.deep_view() =~= blank_config());
        blank
    }

    /// The configuration to use, given what was read from a file.
    pub fn from_file(read: MiguxConfig) -> (r: Self)
        ensures
            r.deep_view() == config_filled(read.deep_view()),
    {
        let mut cfg = read;
        cfg.apply_defaults();
        cfg
    }

    /// Fills in the defaults.
    pub fn apply_defaults(&mut self)
        ensures
            final(self).deep_view() == config_filled(old(self).deep_view()),
    {
        let ghost v = self.deep_view();
        let ghost servers = servers_filled(v.server);
        let def_global = GlobalConfig::default();
        self.global.apply_defaults_from(&def_global);
        if is_empty(self.http.access_log.as_str()) {
            self.http.access_log = HttpConfig::default().access_log;
        }
        assert(self.http.deep_view() =~= config_filled(v).http);
        let n: usize = self.server.entries.len();
        for i in 0..n
            invariant
                n == self.server.entries@.len(),
                n == v.server.len(),
                servers == servers_filled(v.server),
                self.global.deep_view() == config_filled(v).global,
                self.http.deep_view() == config_filled(v).http,
                self.upstream.deep_view() == v.upstream,
                self.location.deep_view() == v.location,
                forall|j: int|
                    0 <= j < n ==> (#[trigger] self.server.deep_view()[j]) == (if j < i {
                        servers[j]
                    } else {
                        v.server[j]
                    }),
        {
            assert(self.server.deep_view()[i as int] == v.server[i as int]);
            let ghost before = self.server.deep_view();
            self.server.entries[i].1.apply_defaults();
            assert forall|j: int| 0 <= j < n implies (#[trigger] self.server.deep_view()[j]) == (
            if j <= i {
                servers[j]
            } else {
                v.server[j]
            }) by {
                assert(before[j] == (if j < i {
                    servers[j]
                } else {
                    v.server[j]
                }));
            }
        }
        assert(self.server.deep_view() =~= servers);
        let m: usize = self.location.entries.len();
        for i in 0..m
            invariant
                m == self.location.entries@.len(),
                m == v.location.len(),
                self.global.deep_view() == config_filled(v).global,
                self.http.deep_view() == config_filled(v).http,
                self.upstream.deep_view() == v.upstream,
                self.server.deep_view() == servers,
                forall|j: int|
                    0 <= j < m ==> (#[trigger] self.location.deep_view()[j]) == (if j < i {
                        locations_filled(v.location, servers)[j]
                    } else {
                        v.location[j]
                    }),
        {
            assert(self.location.deep_view()[i as int] == v.location[i as int]);
            let ghost before = self.location.deep_view();
            self.location.entries[i].1.apply_defaults(&self.server);
            assert forall|j: int| 0 <= j < m implies (#[trigger] self.location.deep_view()[j]) == (
            if j <= i {
                locations_filled(v.location, servers)[j]
            } else {
                v.location[j]
            }) by {
                assert(before[j] == (if j < i {
                    locations_filled(v.location, servers)[j]
                } else {
                    v.location[j]
                }));
            }
        }
        assert(self.location.deep_view() =~= locations_filled(v.location, servers));
    }
}

/// The lines that show the global and the HTTP settings.
pub open spec fn settings_lines(g: GlobalView, h: HttpView) -> Seq<Seq<char>> {
    seq![
        "\n[global]"@,
        "  worker_processes     = "@ + number::decimal(g.worker_processes as nat),
        "  worker_connections   = "@ + number::decimal(g.worker_connections as nat),
        "  log_level            = "@ + g.log_level,
        "  error_log            = "@ + g.error_log,
        "\n[http]"@,
        "  sendfile             = "@ + listing::flag_text(h.sendfile),
        "  keepalive_timeout    = "@ + number::decimal(h.keepalive_timeout_secs as nat),
        "  access_log           = "@ + h.access_log,
    ]
}

/// The lines that show an upstream.
pub open spec fn upstream_lines(name: Seq<char>, v: UpstreamView) -> Seq<Seq<char>> {
    seq![
        "  upstream "@ + name + ":"@,
        "    server   = "@ + v.server,
        "    strategy = "@ + v.strategy,
    ]
}

/// The lines that show a server.
pub open spec fn server_lines(name: Seq<char>, v: ServerView) -> Seq<Seq<char>> {
    seq![
        "  server "@ + name + ":"@,
        "    listen      = "@ + v.listen,
        "    server_name = "@ + v.server_name,
        "    root        = "@ + v.root,
        "    index       = "@ + v.index,
    ]
}

/// The lines that show a location.
pub open spec fn location_lines(name: Seq<char>, v: LocationView) -> Seq<Seq<char>> {
    seq![
        "  location "@ + name + ":"@,
        "    server       = "@ + v.server,
        "    path         = "@ + v.path,
        "    type         = "@ + v.kind,
        "    root         = "@ + listing::option_text(v.root),
        "    index        = "@ + listing::option_text(v.index),
        "    upstream     = "@ + listing::option_text(v.upstream),
        "    strip_prefix = "@ + listing::option_text(v.strip_prefix),
    ]
}

/// The lines that show all upstreams.
pub open spec fn all_upstream_lines(s: Seq<(Seq<char>, UpstreamView)>) -> Seq<Seq<char>>
    decreases s.len(),
{
    if s.len() == 0 {
        seq!["\n[upstream]"@]
    } else {
        all_upstream_lines(s.drop_last()) + upstream_lines(s.last().0, s.last().1)
    }
}

/// The lines that show all servers.
pub open spec fn all_server_lines(s: Seq<(Seq<char>, ServerView)>) -> Seq<Seq<char>>
    decreases s.len(),
{
    if s.len() == 0 {
        seq!["\n[server]"@]
    } else {
        all_server_lines(s.drop_last()) + server_lines(s.last().0, s.last().1)
    }
}

/// The lines that show all locations.
pub open spec fn all_location_lines(s: Seq<(Seq<char>, LocationView)>) -> Seq<Seq<char>>
    decreases s.len(),
{
    if s.len() == 0 {
        seq!["\n[location]"@]
    } else {
        all_location_lines(s.drop_last()) + location_lines(s.last().0, s.last().1)
    }
}

/// The lines that show a configuration.
pub open spec fn config_lines(v: ConfigView) -> Seq<Seq<char>> {
    seq!["================ MIGUX CONFIG ================"@] + settings_lines(v.global, v.http)
        + all_upstream_lines(v.upstream) + all_server_lines(v.server) + all_location_lines(
        v.location,
    ) + seq!["=============================================="@]
}

impl MiguxConfig {
    /// Adds the lines that show all upstreams.
    fn print_upstreams(&self, out: &mut Vec<String>)
        ensures
            final(out).deep_view() == old(out).deep_view() + all_upstream_lines(
                self.upstream.deep_view(),
            ),
    {
        let ghost before = out.deep_view();
        let ghost all = self.upstream.deep_view();
        push_heading(out, "\n[upstream]");
        assert(all.take(0) =~= seq![]);
        assert(out.deep_view() =~= before + all_upstream_lines(all.take(0)));
        for i in 0..self.upstream.entries.len()
            invariant
                all == self.upstream.deep_view(),
                out.deep_view() == before + all_upstream_lines(all.take(i as int)),
        {
            let ghost seen = all.take(i + 1);
            assert(seen.drop_last() =~= all.take(i as int));
            assert(seen.last() == all[i as int]);
            let e = &self.upstream.entries[i];
            let head = concat3("  upstream ", e.0.as_str(), ":");
            push_heading(out, head.as_str());
            push_line(out, "    server   = ", e.1.server.as_str());
            push_line(out, "    strategy = ", e.1.strategy.as_str());
            assert(out.deep_view() =~= before + all_upstream_lines(seen));
        }
        assert(all.take(all.len() as int) =~= all);
    }

    /// Adds the lines that show all servers.
    fn print_servers(&self, out: &mut Vec<String>)
        ensures
            final(out).deep_view() == old(out).deep_view() + all_server_lines(
                self.server.deep_view(),
            ),
    {
        let ghost before = out.deep_view();
        let ghost all = self.server.deep_view();
        push_heading(out, "\n[server]");
        assert(all.take(0) =~= seq![]);
        assert(out.deep_view() =~= before + all_server_lines(all.take(0)));
        for i in 0..self.server.entries.len()
            invariant
                all == self.server.deep_view(),
                out.deep_view() == before + all_server_lines(all.take(i as int)),
        {
            let ghost seen = all.take(i + 1);
            assert(seen.drop_last() =~= all.take(i as int));
            assert(seen.last() == all[i as int]);
            let e = &self.server.entries[i];
            let head = concat3("  server ", e.0.as_str(), ":");
            push_heading(out, head.as_str());
            push_line(out, "    listen      = ", e.1.listen.as_str());
            push_line(out, "    server_name = ", e.1.server_name.as_str());
            push_line(out, "    root        = ", e.1.root.as_str());
            push_line(out, "    index       = ", e.1.index.as_str());
            assert(out.deep_view() =~= before + all_server_lines(seen));
        }
        assert(all.take(all.len() as int) =~= all);
    }

    /// Adds the lines that show all locations.
    fn print_locations(&self, out: &mut Vec<String>)
        ensures
            final(out).deep_view() == old(out).deep_view() + all_location_lines(
                self.location.deep_view(),
            ),
    {
        let ghost before = out.deep_view();
        let ghost all = self.location.deep_view();
        push_heading(out, "\n[location]");
        assert(all.take(0) =~= seq![]);
        assert(out.deep_view() =~= before + all_location_lines(all.take(0)));
        for i in 0..self.location.entries.len()
            invariant
                all == self.location.deep_view(),
                out.deep_view() == before + all_location_lines(all.take(i as int)),
        {
            let ghost seen = all.take(i + 1);
            assert(seen.drop_last() =~= all.take(i as int));
            assert(seen.last() == all[i as int]);
            let e = &self.location.entries[i];
            let head = concat3("  location ", e.0.as_str(), ":");
            push_heading(out, head.as_str());
            push_line(out, "    server       = ", e.1.server.as_str());
            push_line(out, "    path         = ", e.1.path.as_str());
            push_line(out, "    type         = ", e.1.kind.as_str());
            push_option(out, "    root         = ", &e.1.root);
            push_option(out, "    index        = ", &e.1.index);
            push_option(out, "    upstream     = ", &e.1.upstream);
            push_option(out, "    strip_prefix = ", &e.1.strip_prefix);
            assert(out.deep_view() =~= before + all_location_lines(seen));
        }
        assert(all.take(all.len() as int) =~= all);
    }

    /// The lines that show the configuration.
    pub fn print(&self) -> (r: Vec<String>)
        ensures
            r.deep_view() == config_lines(self.deep_view()),
    {
        let mut out: Vec<String> = Vec::new();
        assert(out.deep_view() =~= seq![]);
        push_heading(&mut out, "================ MIGUX CONFIG ================");
        let ghost first = out.deep_view();
        push_heading(&mut out, "\n[global]");
        push_number(&mut out, "  worker_processes     = ", self.global.worker_processes as u128);
        push_number(&mut out, "  worker_connections   = ", self.global.worker_connections as u128);
        push_line(&mut out, "  log_level            = ", self.global.log_level.as_str());
        push_line(&mut out, "  error_log            = ", self.global.error_log.as_str());
        push_heading(&mut out, "\n[http]");
        push_flag(&mut out, "  sendfile             = ", self.http.sendfile);
        push_number(
            &mut out,
            "  keepalive_timeout    = ",
            self.http.keepalive_timeout_secs as u128,
        );
        push_line(&mut out, "  access_log           = ", self.http.access_log.as_str());
        assert(out.deep_view() =~= first + settings_lines(
            self.deep_view().global,
            self.deep_view().http,
        ));
        self.print_upstreams(&mut out);
        self.print_servers(&mut out);
        self.print_locations(&mut out);
        push_heading(&mut out, "==============================================");
        assert(out.deep_view() =~= config_lines(self.deep_view()));
        out
    }
}

/// The sum of two numbers.
pub fn add(left: u64, right: u64) -> (r: u64)
    requires
        left + right <= u64::MAX,
    ensures
        r == left + right,
{
    left + right
}

/// What is set stays as it is, and what is not set gets a fixed value.
pub proof fn unset_values_are_filled_in(v: ConfigView)
    ensures
        ({
            let w = config_filled(v);
            &&& v.global.worker_processes > 0 ==> w.global.worker_processes == v.global.worker_processes
            &&& v.global.worker_processes == 0 ==> w.global.worker_processes == 1
            &&& v.global.worker_connections > 0 ==> w.global.worker_connections == v.global.worker_connections
            &&& v.global.worker_connections == 0 ==> w.global.worker_connections == 1024
            &&& v.global.log_level.len() > 0 ==> w.global.log_level == v.global.log_level
            &&& v.global.log_level.len() == 0 ==> w.global.log_level == "info"@
            &&& v.global.error_log.len() > 0 ==> w.global.error_log == v.global.error_log
            &&& v.global.error_log.len() == 0 ==> w.global.error_log == "/var/log/migux/error.log"@
            &&& v.http.access_log.len() > 0 ==> w.http.access_log == v.http.access_log
            &&& v.http.access_log.len() == 0 ==> w.http.access_log == "/var/log/migux/access.log"@
            &&& w.http.sendfile == v.http.sendfile
            &&& w.http.keepalive_timeout_secs == v.http.keepalive_timeout_secs
            &&& w.upstream == v.upstream
        }),
{
}

/// Each server keeps its name and what is set of it; what is not set gets a fixed
/// value.
pub proof fn servers_are_filled_in(v: ConfigView, i: int)
    requires
        0 <= i < v.server.len(),
    ensures
        ({
            let a = v.server[i].1;
            let b = config_filled(v).server[i].1;
            &&& config_filled(v).server.len() == v.server.len()
            &&& config_filled(v).server[i].0 == v.server[i].0
            &&& a.listen.len() > 0 ==> b.listen == a.listen
            &&& a.listen.len() == 0 ==> b.listen == "0.0.0.0:8080"@
            &&& a.server_name.len() > 0 ==> b.server_name == a.server_name
            &&& a.server_name.len() == 0 ==> b.server_name == "localhost"@
            &&& a.root.len() > 0 ==> b.root == a.root
            &&& a.root.len() == 0 ==> b.root == "./public"@
            &&& a.index.len() > 0 ==> b.index == a.index
            &&& a.index.len() == 0 ==> b.index == "index.html"@
        }),
{
}

/// Each location keeps its name and what is set of it; its root and its index come
/// from its server where they are not set, and its type is static where it has none.
pub proof fn locations_are_filled_in(v: ConfigView, i: int, k: int)
    requires
        0 <= i < v.location.len(),
        0 <= k < v.server.len(),
        v.server[k].0 == v.location[i].1.server,
        forall|j: int| 0 <= j < k ==> (#[trigger] v.server[j]).0 != v.location[i].1.server,
    ensures
        ({
            let a = v.location[i].1;
            let b = config_filled(v).location[i].1;
            let s = config_filled(v).server[k].1;
            &&& config_filled(v).location.len() == v.location.len()
            &&& config_filled(v).location[i].0 == v.location[i].0
            &&& a.kind.len() > 0 ==> b.kind == a.kind
            &&& a.kind.len() == 0 ==> b.kind == "static"@
            &&& a.root is Some ==> b.root == a.root
            &&& a.root is None ==> b.root == Some(s.root)
            &&& a.index is Some ==> b.index == a.index
            &&& a.index is None ==> b.index == Some(s.index)
            &&& b.server == a.server && b.path == a.path
            &&& b.upstream == a.upstream && b.strip_prefix == a.strip_prefix
        }),
{
    let ss = config_filled(v).server;
    let name = v.location[i].1.server;
    assert forall|j: int| 0 <= j < k implies (#[trigger] ss[j]).0 != name by {
        assert(v.server[j].0 != name);
    }
    assert(ss[k].0 == name);
    named::values_go_by_their_names(ss, name, ss[k].1, k);
}

/// Without any settings, the general ones have fixed values and there is no server.
pub proof fn blank_config_is_known()
    ensures
        ({
            let d = blank_config();
            &&& d.global.worker_processes == 1 && d.global.worker_connections == 1024
            &&& d.global.log_level == "info"@ && d.global.error_log == "/var/log/migux/error.log"@
            &&& d.http.sendfile && d.http.keepalive_timeout_secs == 65
            &&& d.http.access_log == "/var/log/migux/access.log"@
            &&& d.upstream.len() == 0 && d.server.len() == 0 && d.location.len() == 0
        }),
{
}

/// Each general setting has a line of its own, in a fixed order between the two
/// rules.
pub proof fn general_settings_are_listed(v: ConfigView)
    ensures
        ({
            let lines = config_lines(v);
            &&& lines.len() >= 11
            &&& lines[0] == "================ MIGUX CONFIG ================"@
            &&& lines[1] == "\n[global]"@
            &&& lines[2] == "  worker_processes     = "@ + number::decimal(v.global.worker_processes as nat)
            &&& lines[3] == "  worker_connections   = "@ + number::decimal(v.global.worker_connections as nat)
            &&& lines[4] == "  log_level            = "@ + v.global.log_level
            &&& lines[5] == "  error_log            = "@ + v.global.error_log
            &&& lines[6] == "\n[http]"@
            &&& lines[7] == "  sendfile             = "@ + (if v.http.sendfile {
                "true"@
            } else {
                "false"@
            })
            &&& lines[8] == "  keepalive_timeout    = "@ + number::decimal(v.http.keepalive_timeout_secs as nat)
            &&& lines[9] == "  access_log           = "@ + v.http.access_log
            &&& lines.last() == "=============================================="@
        }),
{
    let front = seq!["================ MIGUX CONFIG ================"@] + settings_lines(v.global, v.http);
    let rest = all_upstream_lines(v.upstream) + all_server_lines(v.server) + all_location_lines(
        v.location,
    ) + seq!["=============================================="@];
    let lines = config_lines(v);
    assert(lines =~= front + rest);
    assert(front.len() == 10);
    assert forall|k: int| 0 <= k < 10 implies lines[k] == #[trigger] front[k] by {}
    assert(front[1] == settings_lines(v.global, v.http)[0]);
    assert(front[2] == settings_lines(v.global, v.http)[1]);
    assert(front[3] == settings_lines(v.global, v.http)[2]);
    assert(front[4] == settings_lines(v.global, v.http)[3]);
    assert(front[5] == settings_lines(v.global, v.http)[4]);
    assert(front[6] == settings_lines(v.global, v.http)[5]);
    assert(front[7] == settings_lines(v.global, v.http)[6]);
    assert(front[8] == settings_lines(v.global, v.http)[7]);
    assert(front[9] == settings_lines(v.global, v.http)[8]);
}

proof fn lemma_upstream_placed(s: Seq<(Seq<char>, UpstreamView)>, i: int) -> (r: (
    Seq<Seq<char>>,
    Seq<Seq<char>>,
))
    requires
        0 <= i < s.len(),
    ensures
        all_upstream_lines(s) == r.0 + upstream_lines(s[i].0, s[i].1) + r.1,
    decreases s.len(),
{
    let here = upstream_lines(s[i].0, s[i].1);
    if i == s.len() - 1 {
        let before = all_upstream_lines(s.drop_last());
        let none = Seq::<Seq<char>>::empty();
        assert(all_upstream_lines(s) =~= before + here + none);
        (before, none)
    } else {
        let (a, b) = lemma_upstream_placed(s.drop_last(), i);
        let last = upstream_lines(s.last().0, s.last().1);
        assert(a + here + b + last =~= a + here + (b + last));
        (a, b + last)
    }
}

proof fn lemma_server_placed(s: Seq<(Seq<char>, ServerView)>, i: int) -> (r: (
    Seq<Seq<char>>,
    Seq<Seq<char>>,
))
    requires
        0 <= i < s.len(),
    ensures
        all_server_lines(s) == r.0 + server_lines(s[i].0, s[i].1) + r.1,
    decreases s.len(),
{
    let here = server_lines(s[i].0, s[i].1);
    if i == s.len() - 1 {
        let before = all_server_lines(s.drop_last());
        let none = Seq::<Seq<char>>::empty();
        assert(all_server_lines(s) =~= before + here + none);
        (before, none)
    } else {
        let (a, b) = lemma_server_placed(s.drop_last(), i);
        let last = server_lines(s.last().0, s.last().1);
        assert(a + here + b + last =~= a + here + (b + last));
        (a, b + last)
    }
}

proof fn lemma_location_placed(s: Seq<(Seq<char>, LocationView)>, i: int) -> (r: (
    Seq<Seq<char>>,
    Seq<Seq<char>>,
))
    requires
        0 <= i < s.len(),
    ensures
        all_location_lines(s) == r.0 + location_lines(s[i].0, s[i].1) + r.1,
    decreases s.len(),
{
    let here = location_lines(s[i].0, s[i].1);
    if i == s.len() - 1 {
        let before = all_location_lines(s.drop_last());
        let none = Seq::<Seq<char>>::empty();
        assert(all_location_lines(s) =~= before + here + none);
        (before, none)
    } else {
        let (a, b) = lemma_location_placed(s.drop_last(), i);
        let last = location_lines(s.last().0, s.last().1);
        assert(a + here + b + last =~= a + here + (b + last));
        (a, b + last)
    }
}

/// Each upstream is listed with its name and what is set of it.
pub proof fn upstreams_are_listed(v: ConfigView, i: int)
    requires
        0 <= i < v.upstream.len(),
    ensures
        listing::stand_among(
            seq![
                "  upstream "@ + v.upstream[i].0 + ":"@,
                "    server   = "@ + v.upstream[i].1.server,
                "    strategy = "@ + v.upstream[i].1.strategy,
            ],
            config_lines(v),
        ),
{
    let (a, b) = lemma_upstream_placed(v.upstream, i);
    let here = upstream_lines(v.upstream[i].0, v.upstream[i].1);
    let front = seq!["================ MIGUX CONFIG ================"@] + settings_lines(
        v.global,
        v.http,
    ) + a;
    let back = b + all_server_lines(v.server) + all_location_lines(v.location) + seq![
        "=============================================="@,
    ];
    assert(config_lines(v) =~= front + here + back);
}

/// Each server is listed with its name and what is set of it.
pub proof fn servers_are_listed(v: ConfigView, i: int)
    requires
        0 <= i < v.server.len(),
    ensures
        listing::stand_among(
            seq![
                "  server "@ + v.server[i].0 + ":"@,
                "    listen      = "@ + v.server[i].1.listen,
                "    server_name = "@ + v.server[i].1.server_name,
                "    root        = "@ + v.server[i].1.root,
                "    index       = "@ + v.server[i].1.index,
            ],
            config_lines(v),
        ),
{
    let (a, b) = lemma_server_placed(v.server, i);
    let here = server_lines(v.server[i].0, v.server[i].1);
    let front = seq!["================ MIGUX CONFIG ================"@] + settings_lines(
        v.global,
        v.http,
    ) + all_upstream_lines(v.upstream) + a;
    let back = b + all_location_lines(v.location) + seq![
        "=============================================="@,
    ];
    assert(config_lines(v) =~= front + here + back);
}

/// Each location is listed with its name and what is set of it.
pub proof fn locations_are_listed(v: ConfigView, i: int)
    requires
        0 <= i < v.location.len(),
    ensures
        ({
            let l = v.location[i].1;
            listing::stand_among(
                seq![
                    "  location "@ + v.location[i].0 + ":"@,
                    "    server       = "@ + l.server,
                    "    path         = "@ + l.path,
                    "    type         = "@ + l.kind,
                    "    root         = "@ + listing::option_text(l.root),
                    "    index        = "@ + listing::option_text(l.index),
                    "    upstream     = "@ + listing::option_text(l.upstream),
                    "    strip_prefix = "@ + listing::option_text(l.strip_prefix),
                ],
                config_lines(v),
            )
        }),
{
    let (a, b) = lemma_location_placed(v.location, i);
    let here = location_lines(v.location[i].0, v.location[i].1);
    let front = seq!["================ MIGUX CONFIG ================"@] + settings_lines(
        v.global,
        v.http,
    ) + all_upstream_lines(v.upstream) + all_server_lines(v.server) + a;
    let back = b + seq!["=============================================="@];
    assert(config_lines(v) =~= front + here + back);
}

/// A server, a location and an upstream of which nothing is set have fixed values.
pub proof fn default_entries_are_known()
    ensures
        default_server().listen == "0.0.0.0:8080"@,
        default_server().server_name == "localhost"@,
        default_server().root == "./public"@,
        default_server().index == "index.html"@,
        default_location().server == "main"@,
        default_location().path == "/"@,
        default_location().kind == "static"@,
        default_location().root is None,
        default_location().index is None,
        default_location().upstream is None,
        default_location().strip_prefix is None,
        default_upstream().server == ""@,
        default_upstream().strategy == "round_robin"@,
{
}

proof fn lemma_upstream_heading(s: Seq<(Seq<char>, UpstreamView)>) -> (r: Seq<Seq<char>>)
    ensures
        all_upstream_lines(s) == seq!["\n[upstream]"@] + r,
    decreases s.len(),
{
    if s.len() == 0 {
        let none = Seq::<Seq<char>>::empty();
        assert(all_upstream_lines(s) =~= seq!["\n[upstream]"@] + none);
        none
    } else {
        let r = lemma_upstream_heading(s.drop_last());
        let last = upstream_lines(s.last().0, s.last().1);
        assert(all_upstream_lines(s) =~= seq!["\n[upstream]"@] + (r + last));
        r + last
    }
}

proof fn lemma_server_heading(s: Seq<(Seq<char>, ServerView)>) -> (r: Seq<Seq<char>>)
    ensures
        all_server_lines(s) == seq!["\n[server]"@] + r,
    decreases s.len(),
{
    if s.len() == 0 {
        let none = Seq::<Seq<char>>::empty();
        assert(all_server_lines(s) =~= seq!["\n[server]"@] + none);
        none
    } else {
        let r = lemma_server_heading(s.drop_last());
        let last = server_lines(s.last().0, s.last().1);
        assert(all_server_lines(s) =~= seq!["\n[server]"@] + (r + last));
        r + last
    }
}

proof fn lemma_location_heading(s: Seq<(Seq<char>, LocationView)>) -> (r: Seq<Seq<char>>)
    ensures
        all_location_lines(s) == seq!["\n[location]"@] + r,
    decreases s.len(),
{
    if s.len() == 0 {
        let none = Seq::<Seq<char>>::empty();
        assert(all_location_lines(s) =~= seq!["\n[location]"@] + none);
        none
    } else {
        let r = lemma_location_heading(s.drop_last());
        let last = location_lines(s.last().0, s.last().1);
        assert(all_location_lines(s) =~= seq!["\n[location]"@] + (r + last));
        r + last
    }
}

/// The upstreams, the servers and the locations are listed under headings, in this
/// order, behind the general settings.
pub proof fn sections_have_headings(v: ConfigView)
    ensures
        exists|a: Seq<Seq<char>>, b: Seq<Seq<char>>, c: Seq<Seq<char>>, d: Seq<Seq<char>>|
            config_lines(v) == #[trigger] in_sections(a, b, c, d),
{
    let a = seq!["================ MIGUX CONFIG ================"@] + settings_lines(v.global, v.http);
    let b = lemma_upstream_heading(v.upstream);
    let c = lemma_server_heading(v.server);
    let d = lemma_location_heading(v.location);
    assert(config_lines(v) =~= in_sections(a, b, c, d));
}

/// Lines in sections: general ones, upstreams, servers and locations.
pub open spec fn in_sections(
    a: Seq<Seq<char>>,
    b: Seq<Seq<char>>,
    c: Seq<Seq<char>>,
    d: Seq<Seq<char>>,
) -> Seq<Seq<char>> {
    a + (seq!["\n[upstream]"@] + b) + (seq!["\n[server]"@] + c) + (seq!["\n[location]"@] + d) + seq![
        "=============================================="@,
    ]
}

} // verus!
