[package]
name = "kv_store"
version = "0.1.0"
edition = "2021"
publish = false

[dependencies]
axum = "0.8"
libc = "0.2"
regex = "1"
reqwest = { version = "0.12", default-features = false, features = ["json"] }
serde = { version = "1", features = ["derive"] }
serde_json = "1"
tokio = { version = "1", features = ["macros", "net", "rt-multi-thread"] }
