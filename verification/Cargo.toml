[package]
name = "kube_docs_mcp"
version = "0.1.0"
edition = "2021"
publish = false

[dependencies]
anyhow = "1"
arc-swap = "1"
axum = "0.8"
clap = { version = "4", features = ["derive", "env"] }
hex = "0.4"
jsonschema = { version = "*", default-features = false }
lru = "*"
mime_guess = "2"
reqwest = { version = "0.12", default-features = false, features = ["rustls-tls"] }
rmcp = { version = "*", features = ["server", "macros", "transport-io", "transport-streamable-http-server"] }
rusqlite = { version = "*", features = ["bundled"] }
rust-embed = "8"
rustls = { version = "0.23", default-features = false, features = ["ring", "std"] }
serde = { version = "1", features = ["derive"] }
serde_json = "1"
serde-saphyr = "*"
sha2 = "0.10"
thiserror = "2"
tokio = { version = "1", features = ["full"] }
tokio-util = "0.7"
tower-http = { version = "0.6", features = ["limit", "timeout", "trace"] }
tracing = "0.1"
tracing-subscriber = { version = "0.3", features = ["json", "env-filter"] }
zstd = "0.13"
