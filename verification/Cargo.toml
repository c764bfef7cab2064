[package]
name = "duotunnel"
version = "0.1.0"
edition = "2021"
publish = false

[dependencies]
sha2 = "=0.10.9"
hex = "=0.4.3"
rkyv = "=0.8.18"
subtle = "=2.6.1"
rand = "=0.8.8"
serde = { version = "=1.0.229", features = ["derive"] }
serde_json = "=1.0.154"
clap = { version = "=4.6.7", features = ["derive"] }
figment = { version = "=0.10.19", features = ["yaml", "env"] }
hyper = { version = "1", default-features = false }
