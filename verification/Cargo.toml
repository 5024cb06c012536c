[package]
name = "mailr"
version = "0.1.0"
edition = "2021"
publish = false

[dependencies]
aes-gcm = "0.10"
anyhow = "1"
clap = { version = "4", features = ["derive"] }
colored = "2"
ctrlc = "3"
inquire = "0.7"
lettre = { version = "0.11", default-features = false, features = ["builder", "smtp-transport", "rustls-tls"] }
