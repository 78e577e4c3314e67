//! Configuration: what can be set, the defaults, and the validation.
pub mod global;
pub mod http;
pub mod location;
pub mod migux;
pub mod print;
pub mod server;
pub mod tls;
pub mod upstream;
pub mod validation;

pub use global::GlobalConfig;
pub use http::HttpConfig;
pub use location::{LocationConfig, LocationType};
pub use migux::MiguxConfig;
pub use server::ServerConfig;
pub use tls::TlsConfig;
pub use upstream::{UpstreamConfig, UpstreamHealthConfig, UpstreamServers};
pub use validation::ConfigReport;
