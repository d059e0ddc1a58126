[package]
name = "popcircles"
version = "0.1.0"
edition = "2021"
publish = false

[dependencies]
anyhow = "1"
bytemuck = { version = "1", features = ["must_cast"] }
clap = { version = "4", features = ["derive"] }
log = { version = "0.4", features = ["std"] }
memmap2 = "0.9"
serde = { version = "1", features = ["derive"] }
serde_json = "1"
thiserror = "2"
toml = "0.8"
