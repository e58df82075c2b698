[package]
name = "kvs"
version = "0.1.0"
edition = "2021"
publish = false

[dependencies]
anyhow = "1"
bytes = "1"
chrono = "0.4"
clap = { version = "4", features = ["derive"] }
crc32fast = "1"
crossbeam-skiplist = "0.1"
flume = "0.11"
hyper = "1"
libc = "0.2"
monoio = "0.2"
num_cpus = "1"
once_cell = "1"
serde = { version = "1", features = ["derive"] }
serde_json = "1"
thiserror = "1"
