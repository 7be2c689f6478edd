[package]
name = "ordinary"
version = "0.1.0"
edition = "2021"
publish = false

[dependencies]
regex = "1"
chrono = { version = "0.4", default-features = false, features = ["clock", "std"] }
num-bigint = "0.4"
serde_json = "1"
uuid = { version = "1", features = ["v4"] }
