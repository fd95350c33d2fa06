[package]
name = "penumbra"
version = "0.1.0"
edition = "2021"
publish = false

[dependencies]
pulldown-cmark = { version = "=0.13.6", default-features = false }
ammonia = "=4.2.4"
sanitize-filename = "=0.6.0"
mdstream = "=0.3.0"
petgraph = { version = "=0.8.3", default-features = false, features = ["graphmap"] }
serde = { version = "=1.0.229", features = ["derive"] }
serde_norway = "=0.9.42"
serde_json = "=1.0.154"
uuid = { version = "=1.29.0", features = ["v4", "serde"] }
chrono = { version = "=0.4.45", default-features = false, features = ["serde", "clock", "std"] }
async-trait = "*"
async-channel = "*"
dirs = "*"
reqwest = { version = "*", default-features = false }
