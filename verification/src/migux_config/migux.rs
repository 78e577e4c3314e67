//! The configuration as a whole.
use super::global::{self, GlobalConfig, GlobalView};
use super::http::{self, HttpConfig, HttpView};
use super::location::{self, LocationConfig, LocationView};
use super::server::{self, ServerConfig, ServerView};
use super::upstream::{UpstreamConfig, UpstreamView};
use crate::named::{self, Named};
use vstd::prelude::*;

verus! {

/// The configuration.
#[derive(Debug)]
pub struct MiguxConfig {
    pub global: GlobalConfig,
    pub http: HttpConfig,
    pub upstream: Named<UpstreamConfig>,
    pub servers: Named<ServerConfig>,
    pub location: Named<LocationConfig>,
}

/// The same, as texts and numbers.
#[verifier::ext_equal]
pub struct ConfigView {
    pub global: GlobalView,
    pub http: HttpView,
    pub upstream: Seq<(Seq<char>, UpstreamView)>,
    pub servers: Seq<(Seq<char>, ServerView)>,
    pub location: Seq<(Seq<char>, LocationView)>,
}

impl DeepView for MiguxConfig {
    type V = ConfigView;

    open spec fn deep_view(&self) -> ConfigView {
        ConfigView {
            global: self.global.deep_view(),
            http: self.http.deep_view(),
            upstream: self.upstream.deep_view(),
            servers: self.servers.deep_view(),
            location: self.location.deep_view(),
        }
    }
}

/// Servers with the defaults filled in.
pub open spec fn servers_with_defaults(s: Seq<(Seq<char>, ServerView)>) -> Seq<
    (Seq<char>, ServerView),
> {
    s.map_values(
        |e: (Seq<char>, ServerView)|
            (e.0, server::server_with_defaults(e.1, server::default_server())),
    )
}

/// A location with the defaults of its server filled in, if there is such a
/// server.
pub open spec fn location_of_server(
    l: LocationView,
    servers: Seq<(Seq<char>, ServerView)>,
) -> LocationView {
    match named::find(servers, l.server) {
        Some(s) => location::location_with_defaults(l, s),
        None => l,
    }
}

/// Locations with the defaults of their servers filled in.
pub open spec fn locations_with_defaults(
    s: Seq<(Seq<char>, LocationView)>,
    servers: Seq<(Seq<char>, ServerView)>,
) -> Seq<(Seq<char>, LocationView)> {
    s.map_values(|e: (Seq<char>, LocationView)| (e.0, location_of_server(e.1, servers)))
}

/// A configuration with the defaults filled in.
pub open spec fn config_with_defaults(v: ConfigView) -> ConfigView {
    let servers = servers_with_defaults(v.servers);
    ConfigView {
        global: global::global_with_defaults(v.global, global::default_global()),
        http: http::http_with_defaults(
            http::http_with_cache_defaults(v.http),
            http::default_http(),
        ),
        upstream: v.upstream,
        servers,
        location: locations_with_defaults(v.location, servers),
    }
}

/// The default configuration: default settings and nothing to serve.
pub open spec fn default_config() -> ConfigView {
    ConfigView {
        global: global::default_global(),
        http: http::default_http(),
        upstream: Seq::empty(),
        servers: Seq::empty(),
        location: Seq::empty(),
    }
}

/// Filling in the defaults a second time changes nothing.
pub proof fn defaults_are_idempotent(v: ConfigView)
    ensures
        config_with_defaults(config_with_defaults(v)) == config_with_defaults(v),
{
    let once = config_with_defaults(v);
    let twice = config_with_defaults(once);
    assert(twice.global =~= once.global) by {
        reveal_strlit("info");
        reveal_strlit("/var/log/migux/error.log");
    }
    assert(twice.http =~= once.http) by {
        reveal_strlit("/var/log/migux/access.log");
    }
    assert(twice.servers =~= once.servers) by {
        reveal_strlit("0.0.0.0:8080");
        reveal_strlit("localhost");
        reveal_strlit("./public");
        reveal_strlit("index.html");
        assert forall|i: int| 0 <= i < once.servers.len() implies twice.servers[i]
            == once.servers[i] by {
            assert(twice.servers[i].1 =~= once.servers[i].1);
        }
    }
    assert(twice.location =~= once.location) by {
        assert forall|i: int| 0 <= i < once.location.len() implies twice.location[i]
            == once.location[i] by {
            assert(twice.location[i].1 =~= once.location[i].1);
        }
    }
}

impl Default for MiguxConfig {
    fn default() -> (r: Self)
        ensures
            r.deep_view() == default_config(),
    {
        let mut cfg = MiguxConfig {
            global: GlobalConfig::default(),
            http: HttpConfig::default(),
            upstream: Named::new(),
            servers: Named::new(),
            location: Named::new(),
        };
        cfg.apply_defaults();
        proof {
            reveal_strlit("info");
            reveal_strlit("/var/log/migux/error.log");
            reveal_strlit("/var/log/migux/access.log");
            assert(cfg.deep_view().global =~= global::default_global());
            assert(cfg.deep_view().http =~= http::default_http());
            assert(cfg.deep_view().servers =~= Seq::empty());
            assert(cfg.deep_view().location =~= Seq::empty());
        }
        cfg
    }
}

impl MiguxConfig {
    /// Whether some server has TLS settings.
    pub fn has_tls_servers(&self) -> (r: bool)
        ensures
            r == exists|i: int|
                0 <= i < self.servers.deep_view().len() && (
                #[trigger] self.servers.deep_view()[i]).1.tls is Some,
    {
        for i in 0..self.servers.entries.len()
            invariant
                forall|j: int|
                    0 <= j < i ==> (#[trigger] self.servers.deep_view()[j]).1.tls is None,
        {
            if self.servers.entries[i].1.tls.is_some() {
                assert(self.servers.deep_view()[i as int].1.tls is Some);
                return true;
            }
        }
        false
    }

    /// The global settings.
    pub fn global(&self) -> (r: &GlobalConfig)
        ensures
            *r == self.global,
    {
        &self.global
    }

    /// The HTTP settings.
    pub fn http(&self) -> (r: &HttpConfig)
        ensures
            *r == self.http,
    {
        &self.http
    }

    /// All upstreams.
    pub fn upstreams(&self) -> (r: &Named<UpstreamConfig>)
        ensures
            *r == self.upstream,
    {
        &self.upstream
    }

    /// The upstream of a name.
    pub fn upstream(&self, name: &str) -> (r: Option<&UpstreamConfig>)
        ensures
            match r {
                Some(v) => named::find(self.upstream.deep_view(), name@) == Some(v.deep_view()),
                None => named::find(self.upstream.deep_view(), name@) is None,
            },
    {
        self.upstream.get(name)
    }

    /// All servers.
    pub fn servers(&self) -> (r: &Named<ServerConfig>)
        ensures
            *r == self.servers,
    {
        &self.servers
    }

    /// The server of a name.
    pub fn server(&self, name: &str) -> (r: Option<&ServerConfig>)
        ensures
            match r {
                Some(v) => named::find(self.servers.deep_view(), name@) == Some(v.deep_view()),
                None => named::find(self.servers.deep_view(), name@) is None,
            },
    {
        self.servers.get(name)
    }

    /// All locations.
    pub fn locations(&self) -> (r: &Named<LocationConfig>)
        ensures
            *r == self.location,
    {
        &self.location
    }

    /// The location of a name.
    pub fn location(&self, name: &str) -> (r: Option<&LocationConfig>)
        ensures
            match r {
                Some(v) => named::find(self.location.deep_view(), name@) == Some(v.deep_view()),
                None => named::find(self.location.deep_view(), name@) is None,
            },
    {
        self.location.get(name)
    }

    /// The configuration to use, given what came of reading it from a file.
    pub fn from_file(read: Result<MiguxConfig, String>) -> (r: Result<MiguxConfig, String>)
        ensures
            match read {
                Ok(c) => r matches Ok(d) && d.deep_view() == config_with_defaults(c.deep_view()),
                Err(e) => r == Err::<MiguxConfig, String>(e),
            },
    {
        match read {
            Ok(c) => {
                let mut cfg = c;
                cfg.apply_defaults();
                Ok(cfg)
            },
            Err(e) => Err(e),
        }
    }

    /// Fills in the defaults.
    pub fn apply_defaults(&mut self)
        ensures
            final(self).deep_view() == config_with_defaults(old(self).deep_view()),
    {
        let ghost v = self.deep_view();
        self.http.apply_cache_defaults();
        let def_global = GlobalConfig::default();
        self.global.apply_defaults_from(&def_global);
        let def_http = HttpConfig::default();
        self.http.apply_defaults_from(&def_http);
        let def_server = ServerConfig::default();
        let ghost servers = servers_with_defaults(v.servers);
        let n: usize = self.servers.entries.len();
        for i in 0..n
            invariant
                n == self.servers.entries@.len(),
                n == v.servers.len(),
                def_server.deep_view() == server::default_server(),
                servers == servers_with_defaults(v.servers),
                self.global.deep_view() == config_with_defaults(v).global,
                self.http.deep_view() == config_with_defaults(v).http,
                self.upstream.deep_view() == v.upstream,
                self.location.deep_view() == v.location,
                forall|j: int|
                    0 <= j < n ==> (#[trigger] self.servers.deep_view()[j]) == (if j < i {
                        servers[j]
                    } else {
                        v.servers[j]
                    }),
        {
            assert(self.servers.deep_view()[i as int] == v.servers[i as int]);
            let ghost before = self.servers.deep_view();
            self.servers.entries[i].1.apply_defaults_from(&def_server);
            assert forall|j: int| 0 <= j < n implies (#[trigger] self.servers.deep_view()[j]) == (
            if j <= i {
                servers[j]
            } else {
                v.servers[j]
            }) by {
                assert(before[j] == (if j < i {
                    servers[j]
                } else {
                    v.servers[j]
                }));
            }
        }
        assert(self.servers.deep_view() =~= servers);
        let m: usize = self.location.entries.len();
        for i in 0..m
            invariant
                m == self.location.entries@.len(),
                m == v.location.len(),
                self.global.deep_view() == config_with_defaults(v).global,
                self.http.deep_view() == config_with_defaults(v).http,
                self.upstream.deep_view() == v.upstream,
                self.servers.deep_view() == servers,
                forall|j: int|
                    0 <= j < m ==> (#[trigger] self.location.deep_view()[j]) == (if j < i {
                        locations_with_defaults(v.location, servers)[j]
                    } else {
                        v.location[j]
                    }),
        {
            assert(self.location.deep_view()[i as int] == v.location[i as int]);
            let ghost before = self.location.deep_view();
            let name = self.location.entries[i].1.server.clone();
            let found = match self.servers.get(name.as_str()) {
                Some(s) => Some(s.clone()),
                None => None,
            };
            match found {
                Some(s) => {
                    self.location.entries[i].1.apply_defaults_from_server(&s);
                },
                None => {},
            }
            assert forall|j: int| 0 <= j < m implies (#[trigger] self.location.deep_view()[j]) == (
            if j <= i {
                locations_with_defaults(v.location, servers)[j]
            } else {
                v.location[j]
            }) by {
                assert(before[j] == (if j < i {
                    locations_with_defaults(v.location, servers)[j]
                } else {
                    v.location[j]
                }));
            }
        }
        assert(self.location.deep_view() =~= locations_with_defaults(v.location, servers));
    }
}

// ---------------------------------------------------------------------------
// What is filled in
// ---------------------------------------------------------------------------

/// What is set stays as it is, and what is not set gets a fixed value. Settings of
/// the cache get one only where a directory is set.
pub proof fn unset_values_are_filled_in(v: ConfigView)
    ensures
        ({
            let w = config_with_defaults(v);
            &&& v.global.worker_processes > 0 ==> w.global.worker_processes == v.global.worker_processes
            &&& v.global.worker_processes == 0 ==> w.global.worker_processes == 1
            &&& v.global.worker_connections > 0 ==> w.global.worker_connections == v.global.worker_connections
            &&& v.global.worker_connections == 0 ==> w.global.worker_connections == 1024
            &&& v.global.log_level.len() > 0 ==> w.global.log_level == v.global.log_level
            &&& v.global.log_level.len() == 0 ==> w.global.log_level == "info"@
            &&& v.global.error_log.len() > 0 ==> w.global.error_log == v.global.error_log
            &&& v.global.error_log.len() == 0 ==> w.global.error_log == "/var/log/migux/error.log"@
            &&& w.upstream == v.upstream
        }),
        ({
            let w = config_with_defaults(v);
            &&& v.http.keepalive_timeout_secs > 0 ==> w.http.keepalive_timeout_secs == v.http.keepalive_timeout_secs
            &&& v.http.keepalive_timeout_secs == 0 ==> w.http.keepalive_timeout_secs == 65
            &&& v.http.client_read_timeout_secs > 0 ==> w.http.client_read_timeout_secs == v.http.client_read_timeout_secs
            &&& v.http.client_read_timeout_secs == 0 ==> w.http.client_read_timeout_secs == 15
            &&& v.http.proxy_connect_timeout_secs > 0 ==> w.http.proxy_connect_timeout_secs == v.http.proxy_connect_timeout_secs
            &&& v.http.proxy_connect_timeout_secs == 0 ==> w.http.proxy_connect_timeout_secs == 5
            &&& v.http.proxy_read_timeout_secs > 0 ==> w.http.proxy_read_timeout_secs == v.http.proxy_read_timeout_secs
            &&& v.http.proxy_read_timeout_secs == 0 ==> w.http.proxy_read_timeout_secs == 30
            &&& v.http.proxy_write_timeout_secs > 0 ==> w.http.proxy_write_timeout_secs == v.http.proxy_write_timeout_secs
            &&& v.http.proxy_write_timeout_secs == 0 ==> w.http.proxy_write_timeout_secs == 30
            &&& v.http.proxy_pool_max_per_addr > 0 ==> w.http.proxy_pool_max_per_addr == v.http.proxy_pool_max_per_addr
            &&& v.http.proxy_pool_max_per_addr == 0 ==> w.http.proxy_pool_max_per_addr == 32
            &&& v.http.proxy_pool_idle_timeout_secs > 0 ==> w.http.proxy_pool_idle_timeout_secs == v.http.proxy_pool_idle_timeout_secs
            &&& v.http.proxy_pool_idle_timeout_secs == 0 ==> w.http.proxy_pool_idle_timeout_secs == 60
            &&& v.http.max_request_headers_bytes > 0 ==> w.http.max_request_headers_bytes == v.http.max_request_headers_bytes
            &&& v.http.max_request_headers_bytes == 0 ==> w.http.max_request_headers_bytes == 65536
            &&& v.http.max_request_body_bytes > 0 ==> w.http.max_request_body_bytes == v.http.max_request_body_bytes
            &&& v.http.max_request_body_bytes == 0 ==> w.http.max_request_body_bytes == 10485760
            &&& v.http.max_upstream_response_headers_bytes > 0 ==> w.http.max_upstream_response_headers_bytes == v.http.max_upstream_response_headers_bytes
            &&& v.http.max_upstream_response_headers_bytes == 0 ==> w.http.max_upstream_response_headers_bytes == 65536
            &&& v.http.max_upstream_response_body_bytes > 0 ==> w.http.max_upstream_response_body_bytes == v.http.max_upstream_response_body_bytes
            &&& v.http.max_upstream_response_body_bytes == 0 ==> w.http.max_upstream_response_body_bytes == 10485760
            &&& v.http.access_log.len() > 0 ==> w.http.access_log == v.http.access_log
            &&& v.http.access_log.len() == 0 ==> w.http.access_log == "/var/log/migux/access.log"@
            &&& w.http.sendfile == v.http.sendfile
            &&& w.http.cache_dir == v.http.cache_dir
            &&& v.http.cache_dir is Some && v.http.cache_default_ttl_secs is None
                ==> w.http.cache_default_ttl_secs == Some(30u32)
            &&& v.http.cache_dir is None || v.http.cache_default_ttl_secs is Some
                ==> w.http.cache_default_ttl_secs == v.http.cache_default_ttl_secs
            &&& v.http.cache_dir is Some && v.http.cache_max_object_bytes is None
                ==> w.http.cache_max_object_bytes == Some(1048576u64)
            &&& v.http.cache_dir is None || v.http.cache_max_object_bytes is Some
                ==> w.http.cache_max_object_bytes == v.http.cache_max_object_bytes
            &&& w.http.cache_max_total_bytes == v.http.cache_max_total_bytes
            &&& w.http.cache_max_entries == v.http.cache_max_entries
            &&& w.http.cache_inactive_secs == v.http.cache_inactive_secs
        }),
{
}

/// Each server keeps its name and what is set of it; what is not set gets a fixed
/// value.
pub proof fn servers_are_filled_in(v: ConfigView, i: int)
    requires
        0 <= i < v.servers.len(),
    ensures
        ({
            let a = v.servers[i].1;
            let b = config_with_defaults(v).servers[i].1;
            &&& config_with_defaults(v).servers.len() == v.servers.len()
            &&& config_with_defaults(v).servers[i].0 == v.servers[i].0
            &&& a.listen.len() > 0 ==> b.listen == a.listen
            &&& a.listen.len() == 0 ==> b.listen == "0.0.0.0:8080"@
            &&& a.server_name.len() > 0 ==> b.server_name == a.server_name
            &&& a.server_name.len() == 0 ==> b.server_name == "localhost"@
            &&& a.root.len() > 0 ==> b.root == a.root
            &&& a.root.len() == 0 ==> b.root == "./public"@
            &&& a.index.len() > 0 ==> b.index == a.index
            &&& a.index.len() == 0 ==> b.index == "index.html"@
            &&& b.tls == a.tls
        }),
{
}

/// Each location keeps its name and what is set of it; its root and its index come
/// from its server where they are not set.
pub proof fn locations_are_filled_in(v: ConfigView, i: int, k: int)
    requires
        0 <= i < v.location.len(),
        0 <= k < v.servers.len(),
        v.servers[k].0 == v.location[i].1.server,
        forall|j: int| 0 <= j < k ==> (#[trigger] v.servers[j]).0 != v.location[i].1.server,
    ensures
        ({
            let a = v.location[i].1;
            let b = config_with_defaults(v).location[i].1;
            let s = config_with_defaults(v).servers[k].1;
            &&& config_with_defaults(v).location.len() == v.location.len()
            &&& config_with_defaults(v).location[i].0 == v.location[i].0
            &&& a.root is Some ==> b.root == a.root
            &&& a.root is None ==> b.root == Some(s.root)
            &&& a.index is Some ==> b.index == a.index
            &&& a.index is None ==> b.index == Some(s.index)
            &&& b.server == a.server && b.path == a.path && b.kind == a.kind
            &&& b.upstream == a.upstream && b.strip_prefix == a.strip_prefix && b.cache == a.cache
        }),
{
    let ss = config_with_defaults(v).servers;
    let name = v.location[i].1.server;
    assert forall|j: int| 0 <= j < k implies (#[trigger] ss[j]).0 != name by {
        assert(v.servers[j].0 != name);
    }
    assert(ss[k].0 == name);
    named::values_go_by_their_names(ss, name, ss[k].1, k);
}

/// Without any settings, the general ones have fixed values and there is no server.
pub proof fn default_config_is_known()
    ensures
        ({
            let d = default_config();
            &&& d.global.worker_processes == 1 && d.global.worker_connections == 1024
            &&& d.global.log_level == "info"@ && d.global.error_log == "/var/log/migux/error.log"@
            &&& d.http.sendfile
            &&& d.http.keepalive_timeout_secs == 65
            &&& d.http.client_read_timeout_secs == 15
            &&& d.http.proxy_connect_timeout_secs == 5
            &&& d.http.proxy_read_timeout_secs == 30
            &&& d.http.proxy_write_timeout_secs == 30
            &&& d.http.proxy_pool_max_per_addr == 32
            &&& d.http.proxy_pool_idle_timeout_secs == 60
            &&& d.http.max_request_headers_bytes == 65536
            &&& d.http.max_request_body_bytes == 10485760
            &&& d.http.max_upstream_response_headers_bytes == 65536
            &&& d.http.max_upstream_response_body_bytes == 10485760
            &&& d.http.access_log == "/var/log/migux/access.log"@
            &&& d.http.cache_dir is None && d.http.cache_default_ttl_secs is None
            &&& d.http.cache_max_object_bytes is None && d.http.cache_max_total_bytes is None
            &&& d.http.cache_max_entries is None && d.http.cache_inactive_secs is None
            &&& d.upstream.len() == 0 && d.servers.len() == 0 && d.location.len() == 0
        }),
{
}

} // verus!
