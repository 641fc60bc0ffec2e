[package]
name = "op-reth"
version = "0.1.0"
edition = "2021"
publish = false

[dependencies]
clap = { version = "=4.6.7", features = ["derive"] }
dotenv = "=0.15.0"
eyre = "=0.6.14"
primitive-types = { version = "=0.12.2", features = ["serde"] }
ruint = { version = "=1.21.1", features = ["serde"] }
serde = { version = "=1.0.229", features = ["derive"] }
serde_json = "=1.0.154"
tokio = { version = "=1.54.1", features = ["rt"] }
tracing = "=0.1.44"
tracing-subscriber = "=0.3.23"

[dev-dependencies]
rlp = "=0.5.2"
