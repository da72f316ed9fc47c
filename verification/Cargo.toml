[package]
name = "concurrent_pqueue"
version = "0.1.0"
edition = "2021"
publish = false

[dependencies]
chrono = { version = "0.4", default-features = false, features = ["clock"] }
clap = "4"
tokio = { version = "1", features = ["macros", "rt-multi-thread", "net", "io-util", "io-std"] }
uuid = { version = "1", features = ["v4"] }
atty = "0.2"
