[package]
name = "chatbot"
version = "0.1.0"
edition = "2021"
publish = false

[dependencies]
axum = "0.7"
futures-util = "0.3"
reqwest = { version = "0.12", default-features = false, features = ["json", "stream"] }
serde = { version = "1", features = ["derive"] }
serde_json = "1"
tokio = { version = "1", features = ["macros", "rt-multi-thread", "net", "io-util", "io-std", "sync"] }
tokio-stream = "0.1"
