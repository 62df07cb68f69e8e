[package]
name = "opencontext_core"
version = "0.1.0"
edition = "2021"
publish = false

[dependencies]
reqwest = { version = "*", default-features = false }
serde_json = "1"
thiserror = "1"
tokio = { version = "1", features = ["sync"] }
