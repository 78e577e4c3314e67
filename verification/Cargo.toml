[package]
name = "migux"
version = "0.1.0"
edition = "2021"
publish = false

[dependencies]
anyhow = "1"
bytes = "1"
config = { version = "0.14", default-features = false, features = ["ini"] }
dashmap = "6"
http = "1"
http-body-util = "0.1"
httparse = "1"
httpdate = "1"
hyper = { version = "1", features = ["server", "http2"] }
hyper-util = { version = "0.1", features = ["tokio"] }
mime_guess = "2"
rustls-pemfile = "1"
serde = { version = "1", features = ["derive"] }
tokio = { version = "1", features = ["full"] }
tokio-rustls = "0.24"
tracing = "0.1"
tracing-subscriber = { version = "0.3", features = ["env-filter"] }
