[package]
name = "file_deduplicator"
version = "0.1.0"
edition = "2021"
publish = false

[dependencies]
anyhow = "*"
defaultdict = "*"
glob = "*"
hex = "*"
md5 = "*"
rand = "*"
rayon = "*"
ring = "*"
serde = { version = "*", features = ["derive"] }
serde_json = "*"
sha2 = "*"
sysinfo = "*"
toml = "*"
walkdir = "*"
