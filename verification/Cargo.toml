[package]
name = "yot_run"
version = "0.1.0"
edition = "2021"
publish = false

[dependencies]
crossbeam-queue = "0.3"
crossbeam-deque = "0.8"
rand = "*"
mio = { version = "1", features = ["os-poll", "net"] }
metrics = "*"
metrics-exporter-prometheus = "*"
proc-macro2 = "1"
syn = { version = "2", features = ["full"] }
quote = "1"
