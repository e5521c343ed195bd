[package]
name = "autoshop"
version = "0.1.0"
edition = "2021"
publish = false

[dependencies]
anyhow = "1"
base64 = "0.22"
image = "0.25"
rayon = "1"
serde = { version = "1", features = ["derive"] }
serde_json = "1"
