[package]
name = "virtio"
version = "0.1.0"
edition = "2021"
publish = false

[dependencies]
async-trait = "0.1"
futures-util = "0.3"
libc = "0.2"
thiserror = "2"
tokio = { version = "1", features = ["fs", "io-util", "macros", "rt", "sync"] }
