[package]
name = "merkle_tree_api"
version = "0.1.0"
edition = "2021"
publish = false

[dependencies]
sha3 = "*"
lmdb = "*"
serde = { version = "*", features = ["derive"] }
axum = "*"
tokio = { version = "*", features = ["full"] }
tower-http = { version = "*", features = ["cors"] }

[dev-dependencies]
tempfile = "*"
