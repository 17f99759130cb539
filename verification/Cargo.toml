[package]
name = "hydra-transit"
version = "0.1.0"
edition = "2021"
publish = false

[dependencies]
blake3 = "1"
chacha20poly1305 = "0.10"
clap = { version = "4", features = ["derive", "env"] }
hex = "0.4"
tokio = { version = "1", features = ["io-std", "io-util", "macros", "net", "rt-multi-thread"] }
