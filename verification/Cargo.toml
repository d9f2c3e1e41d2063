[package]
name = "mlatu"
version = "0.1.0"
edition = "2021"
publish = false

[dependencies]
clap = "2.33"
tokio = { version = "1", features = ["rt", "macros", "sync"] }
