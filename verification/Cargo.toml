[package]
name = "crawler"
version = "0.1.0"
edition = "2021"
publish = false

[dependencies]
warp = "0.3"
tokio = { version = "*", features = ["macros", "rt-multi-thread"] }
anyhow = "*"
parking_lot = "*"
serde_json = "*"
reqwest = "*"
