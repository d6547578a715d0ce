[package]
name = "dynostore"
version = "0.1.0"
edition = "2021"
publish = false

[dependencies]
async-trait = "=0.1.92"
bytes = "=1.12.1"
cached = "=0.56.0"
futures = "=0.3.34"
object_store = { version = "=0.13.2", default-features = false }
rand = { version = "=0.9.5", features = ["small_rng"] }
serde = { version = "1", features = ["derive"] }
serde_json = "=1.0.154"
tokio = { version = "1", features = ["sync", "time", "rt", "macros"] }
uuid = { version = "1", features = ["v4"] }
