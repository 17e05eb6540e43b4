[package]
name = "fm_core"
version = "0.1.0"
edition = "2021"
publish = false

[dependencies]
sysinfo = "0.30"
tokio = { version = "1", features = ["rt-multi-thread", "net", "io-util", "macros", "sync"] }
serde = { version = "1", features = ["derive"] }
toml = "0.8"

[dev-dependencies]
prost = "0.12"
