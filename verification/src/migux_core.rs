//! Connections: reading requests, routing them and deciding how they are
//! served.
pub mod buffered;
pub mod connection;
pub mod dispatch;
pub mod http2;
pub mod listen;
pub mod master;
pub mod request;
pub mod routing;
pub mod structs;
pub mod tls;
pub mod types;

pub use listen::{build_servers_by_listen, build_tls_servers_by_listen};
pub use structs::ServerRuntime;
pub use types::{ListenAddr, ServersByListen, TlsListenConfig, TlsServersByListen};
