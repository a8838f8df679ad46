[package]
name = "haystack"
version = "0.1.0"
edition = "2021"
publish = false

[dependencies]
base64 = "0.22"
percent-encoding = "2"
mime_guess = "2"
url = "2"
walkdir = "2"
tiny_http = "0.12"
serde = { version = "1", features = ["derive"] }
serde_json = "1"
dirs = "*"
anyhow = "1"
