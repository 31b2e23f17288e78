[package]
name = "dictd"
version = "0.1.0"
edition = "2021"
publish = false

[dependencies]
regex = "1"
zstd = "0.13"
rayon = "1"
serde = { version = "1", features = ["derive"] }
toml = "*"
tokio = { version = "1", features = ["rt-multi-thread", "macros", "net", "fs", "io-util"] }
tokio-util = { version = "0.7", features = ["codec"] }
futures = "0.3"
futures-util = { version = "0.3", features = ["sink"] }
egzreader = "*"
memory-stats = "1"
custom_error = "1"

[dev-dependencies]
newline-converter = "*"
