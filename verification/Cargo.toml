[package]
name = "rw_core"
version = "0.1.0"
edition = "2021"
publish = false

[dependencies]
madsim = { version = "=0.2.34", default-features = false }
anyhow = "=1.0.104"
async-trait = "=0.1.92"
etcd-client = "=0.8.4"
futures = "=0.3.34"
tokio = { version = "=1.54.1", features = ["rt-multi-thread", "macros", "time", "sync", "net", "io-util"] }
tokio-stream = "=0.1.19"
tracing = "=0.1.44"
