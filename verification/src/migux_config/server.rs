//! Settings of one server.
use super::global;
use super::tls::{TlsConfig, TlsView};
use crate::text::{copy_str, is_empty};
use vstd::prelude::*;

verus! {

/// Settings of one server.
#[derive(Debug)]
pub struct ServerConfig {
    pub listen: String,
    pub server_name: String,
    pub root: String,
    pub index: String,
    pub tls: Option<TlsConfig>,
}

/// The same, as texts and numbers.
#[verifier::ext_equal]
pub struct ServerView {
    pub listen: Seq<char>,
    pub server_name: Seq<char>,
    pub root: Seq<char>,
    pub index: Seq<char>,
    pub tls: Option<TlsView>,
}

impl DeepView for ServerConfig {
    type V = ServerView;

    open spec fn deep_view(&self) -> ServerView {
        ServerView {
            listen: self.listen@,
            server_name: self.server_name@,
            root: self.root@,
            index: self.index@,
            tls: self.tls.deep_view(),
        }
    }
}

/// The default settings of a server.
pub open spec fn default_server() -> ServerView {
    ServerView {
        listen: "0.0.0.0:8080"@,
        server_name: "localhost"@,
        root: "./public"@,
        index: "index.html"@,
        tls: None,
    }
}

/// Server settings with what is missing taken from others.
pub open spec fn server_with_defaults(v: ServerView, d: ServerView) -> ServerView {
    ServerView {
        listen: global::or_text(v.listen, d.listen),
        server_name: global::or_text(v.server_name, d.server_name),
        root: global::or_text(v.root, d.root),
        index: global::or_text(v.index, d.index),
        tls: v.tls,
    }
}

impl Default for ServerConfig {
    fn default() -> (r: Self)
        ensures
            r.deep_view() == default_server(),
    {
        ServerConfig {
            listen: copy_str("0.0.0.0:8080"),
            server_name: copy_str("localhost"),
            root: copy_str("./public"),
            index: copy_str("index.html"),
            tls: None,
        }
    }
}

impl Clone for ServerConfig {
    fn clone(&self) -> (r: Self)
        ensures
            r == *self,
    {
        let tls = match &self.tls {
            Some(t) => Some(t.clone()),
            None => None,
        };
        ServerConfig {
            listen: self.listen.clone(),
            server_name: self.server_name.clone(),
            root: self.root.clone(),
            index: self.index.clone(),
            tls,
        }
    }
}

impl ServerConfig {
    /// The listen address.
    pub fn listen(&self) -> (r: &str)
        ensures
            r@ == self.listen@,
    {
        self.listen.as_str()
    }

    /// The name of the server.
    pub fn server_name(&self) -> (r: &str)
        ensures
            r@ == self.server_name@,
    {
        self.server_name.as_str()
    }

    /// The directory of the files.
    pub fn root(&self) -> (r: &str)
        ensures
            r@ == self.root@,
    {
        self.root.as_str()
    }

    /// The file that stands for a directory.
    pub fn index(&self) -> (r: &str)
        ensures
            r@ == self.index@,
    {
        self.index.as_str()
    }

    /// The TLS settings.
    pub fn tls(&self) -> (r: Option<&TlsConfig>)
        ensures
            r.deep_view() == self.tls.deep_view(),
    {
        match &self.tls {
            Some(t) => Some(t),
            None => None,
        }
    }

    /// Takes what is missing from other settings.
    pub fn apply_defaults_from(&mut self, defaults: &ServerConfig)
        ensures
            final(self).deep_view() == server_with_defaults(
                old(self).deep_view(),
                defaults.deep_view(),
            ),
    {
        if is_empty(self.listen.as_str()) {
            self.listen = defaults.listen.clone();
        }
        if is_empty(self.server_name.as_str()) {
            self.server_name = defaults.server_name.clone();
        }
        if is_empty(self.root.as_str()) {
            self.root = defaults.root.clone();
        }
        if is_empty(self.index.as_str()) {
            self.index = defaults.index.clone();
        }
    }
}

/// A server of which nothing is set listens on all addresses, without TLS.
pub proof fn default_server_is_known()
    ensures
        default_server().listen == "0.0.0.0:8080"@,
        default_server().server_name == "localhost"@,
        default_server().root == "./public"@,
        default_server().index == "index.html"@,
        default_server().tls is None,
{
}

} // verus!
