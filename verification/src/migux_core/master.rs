//! The master: the configuration with the listeners that follow from it.
use super::listen::{self, build_servers_by_listen, build_tls_servers_by_listen};
use super::types::{ServersByListen, TlsServersByListen};
use crate::migux_config::migux::MiguxConfig;
use crate::named;
use vstd::prelude::*;

verus! {

/// The configuration with the listeners that follow from it.
pub struct Master {
    /// The configuration.
    pub cfg: MiguxConfig,
    /// The servers at each listen address.
    pub servers_by_listen: ServersByListen,
    /// The TLS listener at each TLS listen address.
    pub tls_servers_by_listen: TlsServersByListen,
}

impl Master {
    /// The master of a configuration.
    pub fn new(cfg: MiguxConfig) -> (r: Self)
        ensures
            r.cfg == cfg,
            named::names_distinct(r.servers_by_listen.deep_view()),
            named::names_distinct(r.tls_servers_by_listen.deep_view()),
            forall|k: Seq<char>|
                #[trigger] named::find(r.servers_by_listen.deep_view(), k) == listen::group_at(
                    cfg.servers.deep_view(),
                    cfg.location.deep_view(),
                    k,
                ),
            forall|k: Seq<char>|
                #[trigger] named::find(r.tls_servers_by_listen.deep_view(), k)
                    == listen::tls_group_at(
                    cfg.servers.deep_view(),
                    cfg.location.deep_view(),
                    k,
                ),
    {
        let servers_by_listen = build_servers_by_listen(&cfg);
        let tls_servers_by_listen = build_tls_servers_by_listen(&cfg);
        Master { cfg, servers_by_listen, tls_servers_by_listen }
    }

    /// How many connections there may be at a time.
    pub fn max_connections(&self) -> (r: usize)
        ensures
            r == self.cfg.global.worker_connections,
    {
        self.cfg.global.worker_connections as usize
    }
}

} // verus!
