[package]
name = "trie_healing"
version = "0.1.0"
edition = "2021"
publish = false

[dependencies]
sha3 = "0.10"
bytes = "1"
tokio = { version = "1", default-features = false, features = ["sync", "rt", "time"] }
serde = { version = "1", features = ["derive"] }
serde_json = "1"
tracing = { version = "0.1", default-features = false, features = ["std"] }
