[package]
name = "srp"
version = "0.1.0"
edition = "2021"
publish = false

[dependencies]
json = "*"
rand = "*"
reqwest = { version = "*", default-features = false }
tokio = { version = "*", features = ["rt-multi-thread", "macros", "time"] }
chrono = "*"
console = "*"
