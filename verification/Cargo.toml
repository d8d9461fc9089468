[package]
name = "hpr_xtask"
version = "0.1.0"
edition = "2021"
publish = false

[dependencies]
sha2 = "0.10"
zip = { version = "2", default-features = false, features = ["deflate"] }
serde = { version = "1", features = ["derive"] }
serde_json = "1"
