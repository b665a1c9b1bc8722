[package]
name = "tabflow"
version = "0.1.0"
edition = "2021"
publish = false

[dependencies]
png = "0.17"
base64 = "0.22"
uuid = { version = "1", features = ["v4"] }
chrono = "0.4"
serde = { version = "1", features = ["derive"] }
serde_json = "1"
tokio = { version = "1", features = ["full"] }
tokio-tungstenite = "0.24"
futures-util = "0.3"
sqlx = { version = "0.8", default-features = false, features = ["sqlite", "runtime-tokio", "macros"] }
reqwest = { version = "0.12", default-features = false, features = ["json", "rustls-tls"] }
