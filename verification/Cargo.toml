[package]
name = "fast-static-server"
version = "0.1.0"
edition = "2021"
publish = false

[dependencies]
percent-encoding = "2"
axum = "0.8"
tokio = { version = "1", features = ["full"] }
tower = { version = "0.5", features = ["util"] }
tower-http = { version = "0.6", features = ["fs", "cors"] }
clap = { version = "4", features = ["derive"] }
