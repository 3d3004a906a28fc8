[package]
name = "splice-core"
version = "0.1.0"
edition = "2021"
publish = false

[dependencies]
anyhow = "1"
directories = "*"
getrandom = "0.3"
libc = "0.2"
postcard = { version = "1", default-features = false, features = ["alloc"] }
serde = { version = "1", features = ["derive"] }
serde_json = "1"
sha2 = "0.10"
tokio = { version = "1", features = ["fs", "io-util", "macros", "net", "rt", "sync", "time"] }
tracing = "0.1"
unicode-normalization = "0.1"
