[package]
name = "os_sim"
version = "0.1.0"
edition = "2021"
publish = false

[dependencies]
indexmap = "2"
rand = "0.8"
rand_distr = "0.4"
serde = { version = "1", features = ["derive"] }
serde_json = "1"
