[package]
name = "votalizer"
version = "0.1.0"
edition = "2021"
publish = false

[dependencies]
clap = "2"
futures-util = "*"
itertools = "*"
log = "*"
reqwest = { version = "=0.12.28", default-features = false, features = ["json"] }
serde_json = "*"
solana-cli-config = "=2.3.13"
solana-logger = "=2.3.1"
solana-pubkey = "=2.4.0"
solana-pubsub-client = "=2.3.13"
solana-signature = "=2.3.0"
tokio = { version = "*", features = ["macros", "rt-multi-thread"] }
