[package]
name = "coordinator"
version = "0.1.0"
edition = "2021"
publish = false

[dependencies]
serde_json = "*"
serde = { version = "*", features = ["derive"] }
tokio = { version = "*", features = ["full"] }
axum = "*"
tower-http = { version = "*", features = ["fs"] }
bollard = "*"
reqwest = { version = "*", default-features = false, features = ["json"] }
futures = "*"
signal-hook = "*"
tracing = "*"
tracing-subscriber = "*"
time = "*"
tempfile = "*"
