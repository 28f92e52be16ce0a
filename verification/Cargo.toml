[package]
name = "mcgit"
version = "0.1.0"
edition = "2021"
publish = false

[dependencies]
fastnbt = "*"
fastanvil = "*"
sha1 = "*"
sha2 = "*"
serde = { version = "*", features = ["derive"] }
serde_json = "*"
flate2 = "*"
tar = "*"
thiserror = "*"
anyhow = "*"
