[package]
name = "symmetrix"
version = "0.1.0"
edition = "2021"
publish = false

[dependencies]
num-bigint = "=0.4.8"
num-traits = "=0.2.19"
serde = { version = "=1.0.229", features = ["derive"] }
serde_json = "=1.0.154"
thiserror = "=1.0.69"
anyhow = "=1.0.104"
clap = { version = "=4.6.7", features = ["derive"] }
tracing = "=0.1.44"
tracing-subscriber = "=0.3.23"
crossbeam-utils = "=0.8.23"
nalgebra = "=0.33.3"
num-complex = "=0.4.6"
rand = "=0.8.8"
sha1 = "0.10"
base64 = "0.22"
