[package]
name = "simba_core"
version = "0.1.0"
edition = "2021"
publish = false

[dependencies]
roaring = "*"
serde = { version = "*", features = ["derive"] }
serde_json = "*"
log = "*"
tantivy = "*"
raft4rs = "*"
