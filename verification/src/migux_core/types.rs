//! Servers by the address at which they listen.
use super::structs::{RuntimeView, ServerRuntime};
use crate::migux_config::tls::{TlsConfig, TlsView};
use crate::named::Named;
use vstd::prelude::*;

verus! {

/// A listen address such as "0.0.0.0:8080".
pub type ListenAddr = String;

/// The servers at each listen address.
pub type ServersByListen = Named<Vec<ServerRuntime>>;

/// A TLS listener with its servers.
#[derive(Debug)]
pub struct TlsListenConfig {
    /// The listen address.
    pub listen: ListenAddr,
    /// The TLS settings of the listener.
    pub tls: TlsConfig,
    /// The servers at the listener.
    pub servers: Vec<ServerRuntime>,
}

/// The same, as texts.
#[verifier::ext_equal]
pub struct TlsListenView {
    pub listen: Seq<char>,
    pub tls: TlsView,
    pub servers: Seq<RuntimeView>,
}

impl DeepView for TlsListenConfig {
    type V = TlsListenView;

    open spec fn deep_view(&self) -> TlsListenView {
        TlsListenView {
            listen: self.listen@,
            tls: self.tls.deep_view(),
            servers: self.servers.deep_view(),
        }
    }
}

impl TlsListenConfig {
    /// A TLS listener with its servers.
    pub fn new(listen: ListenAddr, tls: TlsConfig, servers: Vec<ServerRuntime>) -> (r: Self)
        ensures
            r.listen == listen,
            r.tls == tls,
            r.servers == servers,
    {
        TlsListenConfig { listen, tls, servers }
    }
}

/// The TLS listener at each TLS listen address.
pub type TlsServersByListen = Named<TlsListenConfig>;

} // verus!
