[package]
name = "hwan_note"
version = "0.1.0"
edition = "2021"
publish = false

[dependencies]
sha1 = "*"
serde = { version = "*", features = ["derive"] }
serde_json = "*"
dirs = "*"
trash = "*"
