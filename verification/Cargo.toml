[package]
name = "nbv"
version = "0.1.0"
edition = "2021"
publish = false

[dependencies]
anyhow = "1"
async-trait = "0.1"
base64 = "0.22"
clap = { version = "4", features = ["derive"] }
crossterm = { version = "0.29", features = ["event-stream"] }
futures = "0.3"
image = { version = "0.25", default-features = false, features = ["png", "jpeg", "gif"] }
jupyter-protocol = "*"
jupyter-zmq-client = { version = "*", features = ["tokio-runtime"] }
libc = "0.2"
nvim-rs = { version = "*", features = ["use_tokio"] }
rand = "0.9"
ratatui = "*"
ratatui-image = { version = "*", default-features = false, features = ["crossterm"] }
rmpv = "1"
serde = { version = "1", features = ["derive"] }
serde_json = { version = "1", features = ["preserve_order"] }
sha2 = "0.10"
tempfile = "3"
thiserror = "2"
tokio = { version = "1", features = ["full"] }
unicode-width = "0.2"
