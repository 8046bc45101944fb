[package]
name = "qubit_config"
version = "0.1.0"
edition = "2021"
publish = false

[dependencies]
qubit-budget = { version = "0.7", features = ["json"] }
qubit-datatype = { version = "=0.14.0", features = ["converter", "json"] }
qubit-value = { version = "=0.12.2", features = ["converter", "json"] }
serde = { version = "=1.0.229", features = ["derive"] }
serde_ignored = "=0.1.14"
serde_json = "=1.0.154"
