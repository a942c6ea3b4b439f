[package]
name = "corplink_tunnel"
version = "0.1.0"
edition = "2021"
publish = false

[dependencies]
anyhow = "1"
base64 = "=0.22.1"
boringtun = "=0.7.1"
log = "0.4"
native-tls = "0.2"
serde = { version = "1", features = ["derive"] }
serde_json = "1"
smoltcp = "=0.12.0"
tokio = { version = "1", features = ["full"] }
tokio-native-tls = "0.3"
tracing = "0.1"
tracing-subscriber = "0.3"
x25519-dalek = { version = "=2.0.1", features = ["static_secrets"] }
