[package]
name = "rustblr"
version = "0.1.0"
edition = "2021"
publish = false

[dependencies]
base64 = "=0.23.1"
clap = "=4.6.7"
curl = "=0.4.50"
rand = "=0.10.3"
ring = "=0.17.14"
rusqlite = { version = "=0.40.2", features = ["bundled"] }
serde_json = "=1.0.151"
