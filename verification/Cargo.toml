[package]
name = "consensus"
version = "0.1.0"
edition = "2021"
publish = false

[dependencies]
serde = { version = "1", features = ["derive"] }
thiserror = "1"
borsh = "0.10"
futures-util = "0.3"
