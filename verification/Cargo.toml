[package]
name = "bg_remover"
version = "0.1.0"
edition = "2021"
publish = false

[dependencies]
image = "=0.25.10"
ndarray = "=0.17.2"
ort = { version = "=2.0.0-rc.15", default-features = false, features = ["ndarray", "std"] }
serde = { version = "=1.0.229", features = ["derive"] }
thiserror = "=2.0.21"
