[package]
name = "monad-runtime"
version = "0.1.0"
edition = "2021"
publish = false

[dependencies]
alloy-consensus = "=1.8.3"
alloy-primitives = { version = "=1.7.3", features = ["rlp"] }
alloy-rlp = "=0.3.17"
alloy-signer = "=1.8.3"
alloy-signer-local = "=1.8.3"
alloy-sol-types = "=1.7.3"
blake3 = "=1.8.7"
bytes = "=1.12.1"
clap = { version = "=4.6.7", features = ["derive", "env"] }
eyre = "=0.6.14"
flume = "=0.11.1"
getrandom = "=0.2.17"
hdrhistogram = { version = "=7.6.0", default-features = false }
hex = "=0.4.3"
humantime = "=2.4.0"
io-uring = "0.7"
libc = "0.2"
opentelemetry = { version = "=0.29.1", default-features = false, features = ["metrics"] }
opentelemetry-otlp = { version = "=0.29.0", default-features = false, features = ["grpc-tonic", "metrics"] }
opentelemetry_sdk = { version = "=0.29.0", default-features = false, features = ["metrics"] }
prometheus = { version = "=0.14.0", default-features = false }
rand = "=0.8.8"
serde = { version = "=1.0.229", features = ["derive"] }
socket2 = { version = "=0.6.5", features = ["all"] }
thiserror = "=2.0.21"
tokio = { version = "=1.54.1", features = ["rt", "macros", "time", "sync"] }
toml = "=0.8.23"
tracing = "=0.1.44"
tracing-subscriber = { version = "=0.3.23", features = ["env-filter"] }
zeroize = "=1.9.1"
