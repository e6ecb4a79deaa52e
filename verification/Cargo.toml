[package]
name = "fan"
version = "0.1.0"
edition = "2021"
publish = false

[dependencies]
rtrb = "0.3"
serde = { version = "1", features = ["derive"] }
serde_json = "1"
thiserror = "2"
ctrlc = "3"
env_logger = "0.11"
log = "0.4"
parking_lot = "0.12"
rubato = "*"
