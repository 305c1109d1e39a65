[package]
name = "rust_interview_lab"
version = "0.1.0"
edition = "2021"
publish = false

[dependencies]
libc = "0.2"
reqwest = { version = "0.12", default-features = false, features = ["json"] }
serde_json = "1"
tokio = { version = "1", features = ["rt-multi-thread", "macros", "time"] }
