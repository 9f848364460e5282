[package]
name = "qurts"
version = "0.1.0"
edition = "2021"
publish = false

[dependencies]
melior = "*"
mlir-sys = "*"
serde = { version = "1", features = ["derive"] }
serde_json = "1"
axum = "*"
tokio = { version = "1", features = ["macros", "rt-multi-thread", "net"] }
tower-http = { version = "*", features = ["fs"] }
