[package]
name = "reconcile"
version = "0.1.0"
edition = "2021"
publish = false

[dependencies]
bincode = "1"
chrono = "0.4"
ipnet = "2"
rand = "0.8"
serde = { version = "1", features = ["derive"] }
tokio = { version = "1", features = ["macros", "net", "rt-multi-thread", "time"] }
