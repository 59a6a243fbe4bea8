[package]
name = "sequencer_block"
version = "0.1.0"
edition = "2021"
publish = false

[dependencies]
csv = "1"
reqwest = { version = "*", default-features = false, features = ["json"] }
serde = { version = "1", features = ["derive"] }
tokio = { version = "1", features = ["rt"] }
