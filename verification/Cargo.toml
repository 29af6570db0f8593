[package]
name = "vectors"
version = "0.6.0"
edition = "2021"
publish = false

[dependencies]
bytemuck = { version = "=1.25.2", features = ["derive"] }
pollster = "=0.4.0"
reqwest = { version = "=0.12.28", default-features = false, features = ["json", "rustls-tls"] }
serde = { version = "=1.0.229", features = ["derive"] }
serde_json = "=1.0.154"
sqlparser = { version = "=0.43.1", features = ["serde"] }
thiserror = "=2.0.21"
tokio = { version = "=1.54.1", features = ["rt", "time"] }
wgpu = "=30.0.1"
