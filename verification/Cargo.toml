[package]
name = "stateless_validator"
version = "0.1.0"
edition = "2021"
publish = false

[dependencies]
alloy-primitives = "=0.8.26"
alloy-provider = { version = "=0.6.4", default-features = false, features = ["reqwest"] }
alloy-rpc-types-eth = "=0.6.4"
alloy-transport-http = { version = "=0.6.4", default-features = false, features = ["reqwest"] }
eyre = "=0.6.14"
revm = { version = "=18.0.0", default-features = false, features = ["std", "serde"] }
serde = "=1.0.229"
serde_json = "=1.0.154"
tokio = { version = "=1.54.1", features = ["rt-multi-thread", "macros"] }

[dev-dependencies]
bincode = { version = "=2.0.1", features = ["serde"] }
