//! Settings of one location.
use super::server::{ServerConfig, ServerView};
use crate::text::copy_str;
use vstd::prelude::*;

verus! {

/// How a location is served.
#[derive(Clone, Copy, Debug, PartialEq, Eq, Structural)]
pub enum LocationType {
    /// From files.
    Static,
    /// By an upstream.
    Proxy,
}

impl Default for LocationType {
    fn default() -> (r: Self)
        ensures
            r == LocationType::Static,
    {
        LocationType::Static
    }
}

/// Settings of one location.
#[derive(Debug)]
pub struct LocationConfig {
    pub server: String,
    pub path: String,
    /// Static or proxy.
    pub kind: LocationType,
    /// Static content only.
    pub root: Option<String>,
    pub index: Option<String>,
    pub upstream: Option<String>,
    pub strip_prefix: Option<String>,
    pub cache: Option<bool>,
}

/// The same, as texts and numbers.
#[verifier::ext_equal]
pub struct LocationView {
    pub server: Seq<char>,
    pub path: Seq<char>,
    pub kind: LocationType,
    pub root: Option<Seq<char>>,
    pub index: Option<Seq<char>>,
    pub upstream: Option<Seq<char>>,
    pub strip_prefix: Option<Seq<char>>,
    pub cache: Option<bool>,
}

impl DeepView for LocationConfig {
    type V = LocationView;

    open spec fn deep_view(&self) -> LocationView {
        LocationView {
            server: self.server@,
            path: self.path@,
            kind: self.kind,
            root: self.root.deep_view(),
            index: self.index.deep_view(),
            upstream: self.upstream.deep_view(),
            strip_prefix: self.strip_prefix.deep_view(),
            cache: self.cache,
        }
    }
}

/// The default settings of a location.
pub open spec fn default_location() -> LocationView {
    LocationView {
        server: "main"@,
        path: "/"@,
        kind: LocationType::Static,
        root: None,
        index: None,
        upstream: None,
        strip_prefix: None,
        cache: None,
    }
}

/// Location settings with a missing root and index taken from the server.
pub open spec fn location_with_defaults(v: LocationView, s: ServerView) -> LocationView {
    LocationView {
        root: if v.root is None {
            Some(s.root)
        } else {
            v.root
        },
        index: if v.index is None {
            Some(s.index)
        } else {
            v.index
        },
        ..v
    }
}

/// A copy of an optional string.
pub fn copy_option(s: &Option<String>) -> (r: Option<String>)
    ensures
        r == *s,
{
    match s {
        Some(t) => Some(t.clone()),
        None => None,
    }
}

impl Default for LocationConfig {
    fn default() -> (r: Self)
        ensures
            r.deep_view() == default_location(),
    {
        LocationConfig {
            server: copy_str("main"),
            path: copy_str("/"),
            kind: LocationType::Static,
            root: None,
            index: None,
            upstream: None,
            strip_prefix: None,
            cache: None,
        }
    }
}

impl Clone for LocationConfig {
    fn clone(&self) -> (r: Self)
        ensures
            r == *self,
    {
        LocationConfig {
            server: self.server.clone(),
            path: self.path.clone(),
            kind: self.kind,
            root: copy_option(&self.root),
            index: copy_option(&self.index),
            upstream: copy_option(&self.upstream),
            strip_prefix: copy_option(&self.strip_prefix),
            cache: self.cache,
        }
    }
}

impl LocationConfig {
    /// The name of the server that the location belongs to.
    pub fn server(&self) -> (r: &str)
        ensures
            r@ == self.server@,
    {
        self.server.as_str()
    }

    /// The prefix of the paths that the location serves.
    pub fn path(&self) -> (r: &str)
        ensures
            r@ == self.path@,
    {
        self.path.as_str()
    }

    /// How the location is served.
    pub fn location_type(&self) -> (r: &LocationType)
        ensures
            *r == self.kind,
    {
        &self.kind
    }

    /// The directory of the files.
    pub fn root(&self) -> (r: Option<&str>)
        ensures
            r.deep_view() == self.root.deep_view(),
    {
        match &self.root {
            Some(s) => Some(s.as_str()),
            None => None,
        }
    }

    /// The directory of the files, or another one.
    pub fn root_or<'a>(&'a self, default: &'a str) -> (r: &'a str)
        ensures
            r@ == (match self.root {
                Some(s) => s@,
                None => default@,
            }),
    {
        match &self.root {
            Some(s) => s.as_str(),
            None => default,
        }
    }

    /// The file that stands for a directory.
    pub fn index(&self) -> (r: Option<&str>)
        ensures
            r.deep_view() == self.index.deep_view(),
    {
        match &self.index {
            Some(s) => Some(s.as_str()),
            None => None,
        }
    }

    /// The file that stands for a directory, or another one.
    pub fn index_or<'a>(&'a self, default: &'a str) -> (r: &'a str)
        ensures
            r@ == (match self.index {
                Some(s) => s@,
                None => default@,
            }),
    {
        match &self.index {
            Some(s) => s.as_str(),
            None => default,
        }
    }

    /// The name of the upstream.
    pub fn upstream(&self) -> (r: Option<&str>)
        ensures
            r.deep_view() == self.upstream.deep_view(),
    {
        match &self.upstream {
            Some(s) => Some(s.as_str()),
            None => None,
        }
    }

    /// The prefix to strip.
    pub fn strip_prefix(&self) -> (r: Option<&str>)
        ensures
            r.deep_view() == self.strip_prefix.deep_view(),
    {
        match &self.strip_prefix {
            Some(s) => Some(s.as_str()),
            None => None,
        }
    }

    /// Whether responses are cached.
    pub fn cache(&self) -> (r: Option<bool>)
        ensures
            r == self.cache,
    {
        self.cache
    }

    /// Takes a missing root and index from the server.
    pub fn apply_defaults_from_server(&mut self, server: &ServerConfig)
        ensures
            final(self).deep_view() == location_with_defaults(
                old(self).deep_view(),
                server.deep_view(),
            ),
    {
        if self.root.is_none() {
            self.root = Some(server.root.clone());
        }
        if self.index.is_none() {
            self.index = Some(server.index.clone());
        }
    }
}

/// A location of which nothing is set serves files for the main server, from its
/// root.
pub proof fn default_location_is_known()
    ensures
        default_location().server == "main"@,
        default_location().path == "/"@,
        default_location().kind == LocationType::Static,
        default_location().root is None,
        default_location().index is None,
        default_location().upstream is None,
        default_location().strip_prefix is None,
        default_location().cache is None,
{
}

} // verus!
