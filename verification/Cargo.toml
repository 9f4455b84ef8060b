[package]
name = "tetra_acelp"
version = "0.1.0"
edition = "2021"
publish = false

[dependencies]
zip = { version = "2", default-features = false, features = ["deflate"] }
ureq = { version = "2", default-features = false }
serde = { version = "1", features = ["derive"] }
toml = "0.8"
crossbeam-channel = "0.5"
reqwest = { version = "0.12", default-features = false, features = ["blocking"] }
symphonia = "0.5"
