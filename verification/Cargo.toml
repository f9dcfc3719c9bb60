[package]
name = "passbook"
version = "0.1.0"
edition = "2021"
publish = false

[dependencies]
alloy-primitives = "1"
alloy-consensus = { version = "1", default-features = false, features = ["std"] }
alloy-eips = { version = "1", default-features = false, features = ["std"] }
async-trait = "0.1"
clap = { version = "4", features = ["derive", "env"] }
eyre = "0.6"
futures = "0.3"
jsonrpsee = { version = "0.26", features = ["server", "macros"] }
revm = { version = "38", default-features = false, features = ["std"] }
rusqlite = { version = "0.37", features = ["bundled"] }
serde = { version = "1", features = ["derive"] }
thiserror = "2"
tokio = { version = "1", features = ["rt", "rt-multi-thread", "time", "sync"] }
tracing = "0.1"

[dev-dependencies]
tempfile = "3"
