[package]
name = "group_chat_server"
version = "0.1.0"
edition = "2021"
publish = false

[dependencies]
hex = "0.4"
rand = "0.8"
image = "0.24"
serde = { version = "1", features = ["derive"] }
bincode = "1"
