[package]
name = "harmonium"
version = "0.1.0"
edition = "2021"
publish = false

[dependencies]
serde_json = "=1.0.151"
tokio = { version = "=1.53.2", features = ["rt-multi-thread", "macros", "time"] }
futures-util = "=0.3.34"
rodio = "=0.17.3"
egui = "=0.36.2"
