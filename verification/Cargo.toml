[package]
name = "rustedvllm"
version = "0.1.0"
edition = "2021"
publish = false

[dependencies]
tokio = { version = "1", features = ["sync", "macros", "rt", "rt-multi-thread", "time"] }
async-trait = "0.1"
