[package]
name = "bufunits"
version = "0.1.0"
edition = "2021"
publish = false

[dependencies]
serde_json = "*"
regex = "*"
chrono = "*"

[dev-dependencies]
rmpv = "*"
