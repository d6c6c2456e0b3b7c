[package]
name = "memebin"
version = "0.1.0"
edition = "2021"
publish = false

[dependencies]
strsim = "0.11"
sha2 = "0.10"
uuid = { version = "1", features = ["v4"] }
time = { version = "0.3", features = ["formatting"] }
serde = { version = "1", features = ["derive"] }
serde_json = "1"
arboard = "3"
image = "0.25"
