[package]
name = "rust_rag"
version = "0.7.14"
edition = "2021"
publish = false

[dependencies]
sha2 = "=0.10.9"
url = "=2.5.8"
ra_ap_syntax = "=0.0.300"
anyhow = "1"
thiserror = "1"
serde = { version = "1", features = ["derive"] }
serde_json = "1"
toml = "=0.8.23"
clap = { version = "4", features = ["derive"] }
tokio = { version = "1", features = ["full"] }
axum = "=0.7.9"
tower-http = { version = "0.5", features = ["cors"] }
reqwest = { version = "=0.12.28", default-features = false, features = ["json", "stream", "blocking"] }
ratatui = "=0.29.0"
crossterm = "0.28"
dirs = "5"
walkdir = "2"
glob = "0.3"
tree-sitter = "=0.24.7"
tree-sitter-rust = "=0.23.3"
petgraph = "=0.6.5"
async-stream = "0.3"
async-trait = "0.1"
futures-util = "0.3"
futures-core = "0.3"
bytes = "1"
log = "0.4"
tracing = "0.1"
tracing-subscriber = { version = "0.3", features = ["env-filter", "json"] }
fastembed = { version = "=4.9.1", default-features = false }
