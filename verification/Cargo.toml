[package]
name = "append_tree"
version = "0.1.0"
edition = "2021"
publish = false

[dependencies]
bincode = "0.9"
serde = { version = "1.0", features = ["derive"] }

[dev-dependencies]
rand = "0.4"
