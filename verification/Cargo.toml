[package]
name = "bevy_net"
version = "0.1.0"
edition = "2021"
publish = false

[dependencies]
aes = "=0.8.4"
cfb8 = "=0.8.1"
flate2 = "=1.1.10"
bytes = "=1.12.1"
byteorder = "=1.5.0"
tokio-util = { version = "=0.7.20", features = ["codec"] }
tokio = { version = "=1.54.1", features = ["rt-multi-thread", "net", "sync", "macros", "time"] }
futures = "=0.3.34"
bincode = "=1.3.3"
serde = { version = "=1.0.229", features = ["derive"] }
thiserror = "=1.0.69"
bevy = { version = "=0.13.2", default-features = false }
wtransport = { version = "=0.1.14", features = ["dangerous-configuration"] }
