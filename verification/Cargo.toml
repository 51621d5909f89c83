[package]
name = "eous_modify"
version = "0.0.7"
edition = "2021"
publish = false

[dependencies]
base64 = "0.22"
rust-ini = "0.21"
rusqlite = { version = "0.31", features = ["bundled"] }
serde = { version = "1", features = ["derive"] }
toml = "0.8"
walkdir = "2"
zip = { version = "2", default-features = false, features = ["deflate"] }
sevenz-rust = "0.6"
unrar = "0.5"
