[package]
name = "mcsrs"
version = "0.1.0"
edition = "2021"
publish = false

[dependencies]
bytes = "1"
flate2 = "1"
simd-json = "*"
uuid = { version = "1", features = ["serde"] }
serde = { version = "1", features = ["derive"] }
serde_with = "*"
hematite-nbt = "*"
tokio = { version = "1", features = ["net", "io-util", "sync", "rt", "macros"] }
tracing = "0.1"
tracing-futures = "0.2"
tracing-subscriber = "0.3"
