[package]
name = "shenava-asr-server"
version = "0.1.1"
edition = "2021"
publish = false

[dependencies]
anyhow = "1"
axum = { version = "*", features = ["multipart"] }
clap = { version = "4", features = ["derive"] }
coreml-native = "*"
env_logger = "*"
hound = "3"
log = "0.4"
ndarray = "*"
rustfft = "6"
serde = { version = "1", features = ["derive"] }
serde_json = "1"
shenava-ctc-beam = "*"
tokio = { version = "1", features = ["macros", "rt-multi-thread", "net"] }
tract = "*"
tract-onnx = "*"
