[package]
name = "slatedb"
version = "0.1.0"
edition = "2021"
publish = false

[dependencies]
async-trait = "0.1"
bytes = "1"
chrono = { version = "0.4", features = ["serde"] }
core_affinity = "0.8"
crossbeam-channel = "0.5"
duration-str = "*"
futures = "0.3"
io-uring = "*"
libc = "0.2"
log = "0.4"
object_store = "0.13"
parking_lot = "0.12"
rand = "0.9"
scc = "2"
serde = { version = "1", features = ["derive"] }
serde_json = "1"
thiserror = "2"
tokio = { version = "1", features = ["fs", "macros", "rt", "rt-multi-thread", "sync", "time"] }
tracing = "0.1"
walkdir = "2"
