[package]
name = "greptimedb"
version = "0.1.0"
edition = "2021"
publish = false

[dependencies]
arrow = { version = "=60.1.0", default-features = false, features = ["ipc"] }
arrow-array = { version = "=60.1.0", default-features = false }
arrow-ipc = { version = "=60.1.0", default-features = false, features = ["zstd"] }
arrow-schema = { version = "=60.1.0", default-features = false }
async-stream = "=0.3.6"
async-trait = "=0.1.92"
axum = { version = "=0.8.9", default-features = false, features = ["query"] }
axum-extra = { version = "*", default-features = false, features = ["typed-header"] }
bytes = "=1.12.1"
dashmap = "=6.2.1"
flate2 = "=1.1.10"
futures = "=0.3.34"
futures-util = "=0.3.34"
fxhash = "=0.2.1"
headers = "*"
object-pool = "=0.6.0"
parquet = { version = "=60.1.0", default-features = false, features = ["arrow", "snap", "zstd"] }
pin-project = "=1.1.13"
prost = "=0.14.4"
raft-engine = "=0.4.2"
rand = "=0.8.8"
ratelimit = "=0.10.1"
serde = { version = "=1.0.229", features = ["derive"] }
serde_json = "=1.0.154"
tokio = { version = "=1.54.1", features = ["rt-multi-thread", "sync", "time", "macros"] }
tokio-util = "=0.7.20"
