[package]
name = "authdns"
version = "0.1.0"
edition = "2021"
publish = false

[dependencies]
anyhow = "1"
deku = "0.16"
tokio = { version = "1", features = ["rt-multi-thread", "macros", "net", "io-util"] }
