[package]
name = "stellar-archivist"
version = "0.1.0"
edition = "2021"
publish = false

[dependencies]
clap = { version = "4", features = ["derive"] }
flate2 = "1"
futures-util = "0.3"
libc = "0.2"
rand = "0.8"
rayon = "1"
serde = { version = "1", features = ["derive"] }
serde_json = "1"
sha2 = "0.10"
stellar-xdr = { version = "23", default-features = false, features = ["std", "curr"] }
tokio = { version = "1", features = ["rt-multi-thread", "macros", "sync", "time", "signal"] }
tracing = "0.1"
walkdir = "2"

[dev-dependencies]
hex = "0.4"
tempfile = "3"
