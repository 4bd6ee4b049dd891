[package]
name = "election_prediction"
version = "0.1.0"
edition = "2021"
publish = false

[dependencies]
chrono = { version = "=0.4.45", default-features = false, features = ["now", "std"] }
parity-scale-codec = "=3.7.5"
hex = "=0.4.3"
log = "0.4"
futures = { version = "0.3", default-features = false, features = ["std"] }
serde = { version = "1", features = ["derive"] }
serde_json = "1"
tokio = { version = "1", features = ["sync", "macros", "rt"] }
polkadot-sdk = { version = "=2609.2.0", default-features = false, features = ["frame-support", "frame-election-provider-support", "sp-runtime", "sp-npos-elections"] }
# Not named in the code: its default feature `std` switches on `std` in the crates that
# `polkadot-sdk` re-exports, whose own `std` feature would bring in far more than is needed.
frame-election-provider-support = "=49.0.0"
