[package]
name = "fibonacci_assesment"
version = "0.1.0"
edition = "2021"
publish = false

[dependencies]
num-bigint = "0.4"
num-traits = "0.2"
rayon = "1"
kanal = "*"
tokio = { version = "1", features = ["rt-multi-thread", "sync", "macros"] }
thiserror = "1"
