[package]
name = "cuddlyfs"
version = "0.1.0"
edition = "2021"
publish = false

[dependencies]
uuid = { version = "=1.27.0", features = ["v4"] }
rand = "=0.10.3"
md5 = "=0.8.1"
lru = { version = "=0.18.5", default-features = false }
chrono = "=0.4.45"
clap = "=4.6.7"
