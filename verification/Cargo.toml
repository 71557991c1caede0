[package]
name = "btclib"
version = "0.1.0"
edition = "2021"
publish = false

[dependencies]
anyhow = "1"
argh = "0.1"
bigdecimal = "0.4"
chrono = { version = "0.4", features = ["serde"] }
ciborium = "0.2"
clap = { version = "4", features = ["derive"] }
dashmap = "6"
ecdsa = { version = "0.16", features = ["signing", "verifying", "serde", "pem"] }
flume = "0.11"
hex = "0.4"
k256 = { version = "0.13", features = ["ecdsa", "serde", "pem"] }
serde = { version = "1", features = ["derive"] }
sha256 = { version = "1", default-features = false }
spki = { version = "0.7", features = ["pem", "std"] }
static_init = "1"
tokio = { version = "1", features = ["macros", "rt-multi-thread", "net", "io-util", "sync", "time"] }
uint = "0.10"
uuid = { version = "1", features = ["v4", "serde"] }
