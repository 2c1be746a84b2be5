[package]
name = "dade"
version = "0.1.0"
edition = "2021"
publish = false

[dependencies]
proc-macro2 = "1"
quote = "1"
serde = "=1.0.229"
syn = { version = "1", features = ["full"] }
