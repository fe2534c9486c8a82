[package]
name = "ircd"
version = "0.1.0"
edition = "2021"
publish = false

[dependencies]
tokio = { version = "1", features = ["net", "io-util", "rt-multi-thread", "macros", "sync"] }
tokio-stream = { version = "0.1", features = ["net"] }
serde = { version = "1", features = ["derive"] }
toml = "*"
config = { version = "*", default-features = false, features = ["toml"] }

[dev-dependencies]
regex = "1"
