[package]
name = "rustpotion"
version = "0.1.0"
edition = "2021"
publish = false

[dependencies]
safetensors = "*"
memmap2 = "*"
serde = { version = "*", features = ["derive"] }
serde_json = "*"
rayon = "*"
anyhow = "*"

[dev-dependencies]
regex = "*"
