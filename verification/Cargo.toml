[package]
name = "giteki"
version = "0.1.0"
edition = "2021"
publish = false

[dependencies]
anyhow = "1"
clap = { version = "4", features = ["derive"] }
percent-encoding = "2"
regex = "1"
reqwest = { version = "0.12", default-features = false, features = ["rustls-tls", "http2"] }
serde = { version = "1", features = ["derive"] }
serde_json = "1"
terminal_size = "0.4"
textwrap = "0.16"
tokio = { version = "1", features = ["macros", "rt-multi-thread"] }
unicode-normalization = "0.1"
unicode-width = "0.2"
