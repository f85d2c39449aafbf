[package]
name = "toolbox"
version = "0.2.0"
edition = "2021"
publish = false

[dependencies]
anyhow = "1"
base64 = "0.22"
clap = { version = "4", features = ["derive"] }
dirs = "*"
dunce = "1"
hex = "0.4"
oci-client = "*"
serde = { version = "1", features = ["derive"] }
serde_json = "1"
sha2 = "0.10"
tar = "0.4"
tokio = { version = "1", features = ["rt", "rt-multi-thread", "net", "time", "io-util", "macros"] }
tomlplus-syntax = "*"
walkdir = "2"
zstd = "0.13"

[dev-dependencies]
tempfile = "3"
