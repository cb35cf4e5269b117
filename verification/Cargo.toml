[package]
name = "legna_flow"
version = "0.1.0"
edition = "2021"
publish = false

[dependencies]
aes = "=0.8.4"
cbc = { version = "=0.1.2", features = ["alloc"] }
encoding_rs = "=0.8.42"
uuid = { version = "=1.27.0", features = ["v4", "serde"] }
serde = { version = "=1.0.229", features = ["derive"] }
serde_json = "=1.0.151"
mlua = { version = "=0.10.5", features = ["lua54", "vendored"] }
