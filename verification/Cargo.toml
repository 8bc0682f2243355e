[package]
name = "ytq"
version = "0.1.0"
edition = "2021"
publish = false

[dependencies]
anyhow = "*"
chrono = "*"
clap = { version = "*", features = ["derive"] }
colored = "*"
etcetera = "*"
fd-lock = "*"
open = "*"
rand = "*"
serde = { version = "*", features = ["derive"] }
serde_json = "*"
ureq = "*"
url = "*"
