[package]
name = "acoustic_drone"
version = "0.1.0"
edition = "2021"
publish = false

[dependencies]
libm = "0.2"
microfft = "0.6"
hound = "3.5"
serde = { version = "1", features = ["derive"] }
serde_json = "1"
clap = { version = "4", features = ["derive"] }
