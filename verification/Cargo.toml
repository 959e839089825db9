[package]
name = "charliebot"
version = "0.1.0"
edition = "2021"
publish = false

[dependencies]
markov = "=1.1.0"
bincode = "=1.3.3"
irc = { version = "=1.1.0", default-features = false }
tokio = { version = "*", features = ["rt-multi-thread", "macros"] }
futures = "*"
