[package]
name = "neptune_core"
version = "0.1.0"
edition = "2021"
publish = false

[dependencies]
twenty-first = "=3.0.0"
num-bigint = "=0.4.8"
num-traits = "=0.2.19"
itertools = "0.14"
anyhow = "1"
bincode = "1"
serde = { version = "1", features = ["derive"] }
serde_json = "1"
rusty-leveldb = "*"
memmap2 = "*"
tokio = { version = "1", features = ["sync", "macros", "rt"] }
tracing = "*"
clap = { version = "4", features = ["derive"] }
bytesize = "*"
async-trait = "*"
futures = "*"

[dev-dependencies]
rand = "0.8"
