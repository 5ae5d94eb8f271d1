[package]
name = "mcp_server_conceal_core"
version = "0.2.0"
edition = "2021"
publish = false

[dependencies]
anyhow = "=1.0.104"
clap = { version = "=4.6.7", features = ["derive"] }
directories = "=5.0.1"
fake = "=2.10.0"
kstring = "=2.0.0"
ndarray = "=0.16.1"
rand = "=0.8.8"
regex = "=1.13.1"
rusqlite = { version = "=0.31.0", features = ["bundled"] }
serde = { version = "=1.0.229", features = ["derive"] }
serde_json = "=1.0.154"
shell-words = "=1.1.1"
tokenizers = { version = "=0.19.1", default-features = false, features = ["unstable_wasm"] }
tokio = { version = "=1.54.1", features = ["full"] }
toml = "=0.8.23"
tracing = "=0.1.44"
tracing-subscriber = "=0.3.23"
tract-onnx = "=0.21.19"
uuid = { version = "=1.29.0", features = ["v4"] }
