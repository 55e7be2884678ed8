[package]
name = "memory_store"
version = "0.1.0"
edition = "2021"
publish = false

[dependencies]
sha2 = "*"
serde_json = "*"
reqwest = { version = "*", default-features = false, features = ["json"] }
tokio = { version = "*", features = ["rt-multi-thread", "macros", "sync", "time"] }
chrono = "*"
url = "*"
