[package]
name = "binary2graph"
version = "0.1.0"
edition = "2021"
publish = false

[dependencies]
axum = "0.8"
base64 = "0.22"
clap = { version = "4", features = ["derive"] }
iced-x86 = "1.21"
nix = { version = "0.30", features = ["ptrace", "signal", "process"] }
object = "0.37"
petgraph = "0.8"
serde = { version = "1", features = ["derive"] }
serde_json = "1"
tokio = { version = "1", features = ["rt-multi-thread", "macros", "net"] }
