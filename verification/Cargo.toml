[package]
name = "cosmic-fancy-pants"
version = "0.1.0"
edition = "2021"
publish = false

[dependencies]
smithay = { version = "*", default-features = false }
calloop = "*"
smallvec = "1"
serde = { version = "1", features = ["derive"] }
tracing = "0.1"
tracing-subscriber = { version = "0.3", features = ["env-filter"] }
profiling = "1"

[dev-dependencies]
ron = "*"
