[package]
name = "magellan"
version = "0.1.0"
edition = "2021"
publish = false

[dependencies]
ahash = "*"
anyhow = "*"
base64 = "*"
parking_lot = "*"
petgraph = "*"
rusqlite = { version = "*", features = ["bundled"] }
serde = { version = "1", features = ["derive"] }
serde_json = "1"
sha2 = "*"
sqlitegraph = "*"
thiserror = "*"
tracing = "*"
tree-sitter = "*"
ureq = { version = "*", features = ["json"] }
uuid = { version = "*", features = ["v4"] }
which = "*"
xxhash-rust = { version = "*", features = ["xxh3"] }

[dev-dependencies]
tempfile = "*"
tree-sitter-rust = "*"
