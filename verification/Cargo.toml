[package]
name = "disrust_captioner"
version = "0.1.0"
edition = "2021"
publish = false

[dependencies]
ringbuf = "0.4"
rand = "0.8"
chrono = "0.4"
serde = { version = "1", features = ["derive"] }
serde_json = "1"
