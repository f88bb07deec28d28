[package]
name = "qr_service"
version = "0.1.0"
edition = "2021"
publish = false

[dependencies]
actix-cors = "0.7"
actix-web = { version = "4", default-features = false, features = ["macros"] }
base64 = "0.22"
bincode = "1.3"
chrono = "0.4"
env_logger = "0.11"
image = { version = "0.25", default-features = false, features = ["png", "jpeg"] }
log = "0.4"
mongodb = "2"
qrcodegen = "1.8"
serde = { version = "1", features = ["derive"] }
