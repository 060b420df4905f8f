[package]
name = "database"
version = "0.1.0"
edition = "2021"
publish = false

[dependencies]
bincode-next = "*"
ctrlc = "3"
log = "0.4"
simplelog = "*"
thiserror = "*"
tokio = { version = "1", features = ["full"] }
