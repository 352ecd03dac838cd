[package]
name = "joader"
version = "0.1.0"
edition = "2021"
publish = false

[dependencies]
bitmaps = "=3.2.1"
rand = { version = "=0.8.8", features = ["small_rng"] }
rmp = "=0.8.15"
libc = "=0.2.191"
log = "=0.4.34"
tokio = { version = "=1.54.1", features = ["rt", "rt-multi-thread", "sync", "time", "macros"] }
crossbeam = "=0.8.5"
threadpool = "=1.8.1"
ctrlc = "=3.5.2"
clap = { version = "=4.6.7", features = ["derive"] }
