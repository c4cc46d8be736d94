[package]
name = "maknuuner"
version = "0.1.0"
edition = "2021"
publish = false

[dependencies]
anyhow = "=1.0.104"
caseless = "=0.2.2"
compact_str = { version = "=0.9.1", features = ["serde"] }
csv = "=1.4.0"
reqwest = { version = "=0.12.28", default-features = false, features = ["blocking", "rustls-tls"] }
serde = { version = "=1.0.229", features = ["derive"] }
tokio = { version = "=1.54.1", features = ["macros", "rt-multi-thread", "net"] }
tracing = "=0.1.44"
tracing-subscriber = "=0.3.23"
unicode-normalization = "=0.1.26"
uuid = { version = "=1.29.0", features = ["v7"] }
zip = { version = "=9.2.2", default-features = false }
