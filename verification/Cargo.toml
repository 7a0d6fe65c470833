[package]
name = "lightbox"
version = "0.1.0"
edition = "2021"
publish = false

[dependencies]
anyhow = "1"
apodize = "1"
average = "0.13"
blinkt = "*"
const_format = "0.2"
cpal = "0.13"
figment = { version = "0.10", features = ["toml"] }
librespot = { version = "0.2", default-features = false }
microfft = "*"
rodio = { version = "0.13", default-features = false }
serde = { version = "1", features = ["derive"] }
tokio = { version = "1", features = ["macros", "rt-multi-thread"] }
