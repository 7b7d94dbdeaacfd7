[package]
name = "task_rewards"
version = "0.1.0"
edition = "2021"
publish = false

[dependencies]
sha2 = "0.10"
bs58 = "0.5"
serde = { version = "1", features = ["derive"] }
bincode = "1"
candid = "0.10"
ic-cdk = "0.13"
ic-stable-structures = "0.6"
