[package]
name = "melon_player"
version = "0.1.0"
edition = "2021"
publish = false

[dependencies]
base64 = "0.21"
bytes = "1"
httparse = "1"
rand = "0.8"
serde = { version = "1", features = ["derive"] }
serde_json = "1"
log = "0.4"
once_cell = "1"
symphonia = { version = "0.5", default-features = false, features = ["mp3"] }
reqwest = { version = "0.11", default-features = false, features = ["blocking", "rustls-tls"] }

[dev-dependencies]
aes = "0.8"
