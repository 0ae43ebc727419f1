[package]
name = "cybergraph"
version = "0.1.0"
edition = "2021"
publish = false

[dependencies]
bbg = "=0.1.2"
foculus = "=0.1.2"
cyber-hemera = "=0.3.1"
cyber-nox = "=0.2.0"
serde = { version = "1", features = ["derive"] }
serde_json = "1"
tempfile = "3"
rustix = { version = "1", features = ["fs"] }
clap = { version = "4", features = ["derive"] }
tokio = { version = "1", features = ["rt"] }
