[package]
name = "solana_leader_precached"
version = "0.1.0"
edition = "2021"
publish = false

[dependencies]
log = "0.4"
parking_lot = "0.12"
solana-clock = "=3.1.1"
solana-epoch-schedule = "=3.4.0"
solana-leader-schedule = { version = "=4.2.2", features = ["agave-unstable-api"] }
solana-pubkey = "=4.2.1"
solana-vote = { version = "=4.2.2", features = ["agave-unstable-api"] }
thiserror = "2"
tokio = { version = "1", features = ["rt-multi-thread", "time"] }

[dev-dependencies]
solana-account = "=4.3.2"
solana-short-vec = "~3.2.2"
