//! A small nginx-like HTTP server: configuration, routing, static files and
//! reverse proxying.
use vstd::prelude::*;

pub mod buffer;
pub mod chunked;
pub mod config;
pub mod dates;
pub mod encoding;
pub mod headers;
pub mod listing;
pub mod media;
pub mod migux_cache;
pub mod migux_config;
pub mod migux_core;
pub mod migux_http;
pub mod migux_proxy;
pub mod migux_static;
pub mod named;
pub mod number;
pub mod pem;
pub mod server_core;
pub mod shared_map;
pub mod startup;
pub mod text;
pub mod wire;
pub mod written;

verus! {

} // verus!
