[package]
name = "rinha"
version = "0.1.0"
edition = "2021"
publish = false

[dependencies]
httparse = "1"
memmap2 = "0.9"
serde = { version = "1", features = ["derive"] }
serde_json = "1"
once_cell = "1"
mimalloc = "*"
socket2 = "*"
tokio = { version = "1", features = ["rt", "net", "io-util"] }
ext-php-rs = "*"
