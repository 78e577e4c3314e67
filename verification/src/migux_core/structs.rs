//! What the server keeps at run time.
use crate::migux_config::location::{LocationConfig, LocationView};
use crate::migux_config::server::{ServerConfig, ServerView};
use crate::shared_map::{self, bodies_new};
use dashmap::DashMap;
use vstd::prelude::*;

verus! {

/// Responses kept in memory.
pub struct CacheStore {
    pub responses: DashMap<String, Vec<u8>>,
}

impl CacheStore {
    /// A store without responses.
    pub fn new() -> (r: Self)
        ensures
            shared_map::bodies_of(r.responses).dom() == Set::<Seq<char>>::empty(),
    {
        CacheStore { responses: bodies_new() }
    }
}

impl Default for CacheStore {
    fn default() -> (r: Self)
        ensures
            shared_map::bodies_of(r.responses).dom() == Set::<Seq<char>>::empty(),
    {
        CacheStore::new()
    }
}

/// A server with its locations.
#[derive(Debug)]
pub struct ServerRuntime {
    pub name: String,
    pub config: ServerConfig,
    pub locations: Vec<LocationConfig>,
}

/// The same, as texts.
#[verifier::ext_equal]
pub struct RuntimeView {
    pub name: Seq<char>,
    pub config: ServerView,
    pub locations: Seq<LocationView>,
}

impl DeepView for ServerRuntime {
    type V = RuntimeView;

    open spec fn deep_view(&self) -> RuntimeView {
        RuntimeView {
            name: self.name@,
            config: self.config.deep_view(),
            locations: self.locations.deep_view(),
        }
    }
}

impl Clone for ServerRuntime {
    fn clone(&self) -> (r: Self)
        ensures
            r.deep_view() == self.deep_view(),
    {
        let mut locations: Vec<LocationConfig> = Vec::new();
        for i in 0..self.locations.len()
            invariant
                locations@ == self.locations@.take(i as int),
        {
            locations.push(self.locations[i].clone());
        }
        assert(locations@ =~= self.locations@);
        let r = ServerRuntime { name: self.name.clone(), config: self.config.clone(), locations };
        assert(r.locations.deep_view() =~= self.locations.deep_view());
        r
    }
}

impl ServerRuntime {
    /// A server with its locations.
    pub fn new(name: String, config: ServerConfig, locations: Vec<LocationConfig>) -> (r: Self)
        ensures
            r.name == name,
            r.config == config,
            r.locations == locations,
    {
        ServerRuntime { name, config, locations }
    }
}

} // verus!
