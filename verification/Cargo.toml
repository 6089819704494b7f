[package]
name = "kotonoha"
version = "0.1.0"
edition = "2021"
publish = false

[dependencies]
chrono = "0.4"
serde = { version = "1", features = ["derive"] }
serde_json = "1"
reqwest = { version = "0.12", default-features = false, features = ["json", "stream"] }
futures-util = "0.3"
tokio = { version = "1", features = ["sync", "rt"] }
crossbeam-channel = "0.5"
rtrb = "*"
rubato = "*"
cpal = "*"
whisper-rs = "*"
