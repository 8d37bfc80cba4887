[package]
name = "ingress_intel_rs"
version = "0.1.0"
edition = "2021"
publish = false

[dependencies]
once_cell = "=1.21.4"
percent-encoding = "=2.3.2"
regex = "=1.13.1"
reqwest = { version = "=0.13.5", default-features = false, features = ["json", "cookies", "form"] }
serde = { version = "=1.0.229", features = ["derive"] }
serde_json = "=1.0.151"
thiserror = "=2.0.21"
tokio = { version = "=1.53.2", features = ["sync", "time", "rt", "macros"] }
tracing = "=0.1.44"
