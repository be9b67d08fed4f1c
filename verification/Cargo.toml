[package]
name = "bevy_lite"
version = "0.1.0"
edition = "2021"
publish = false

[dependencies]
thiserror = "=2.0.21"
tracing = "=0.1.44"
tracing-subscriber = { version = "=0.3.23", default-features = false, features = ["registry", "std"] }
puffin = "=0.19.1"
puffin_http = "=0.16.1"
bevy_math = { version = "=0.20.1", default-features = false, features = ["std"] }
bevy_shape = "=0.20.1"
