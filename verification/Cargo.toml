[package]
name = "abe"
version = "0.1.0"
edition = "2021"
publish = false

[dependencies]
rabe-bn = "=0.4.23"
aes-gcm = "=0.11.1"
sha3 = "=0.12.0"
rand = "=0.8.8"
itertools = "=0.15.0"
serde = { version = "*", features = ["derive"] }
base64 = "*"
base64-serde = "*"
tokio = { version = "*", features = ["macros", "rt-multi-thread"] }
warp = { version = "*", features = ["server"] }
