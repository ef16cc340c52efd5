[package]
name = "event_index"
version = "0.1.0"
edition = "2021"
publish = false

[dependencies]
nostr = { version = "0.43", default-features = false, features = ["std"] }
tokio = { version = "1", default-features = false, features = ["sync"] }
tracing = { version = "0.1", default-features = false, features = ["std", "attributes"] }
