[package]
name = "mirror_sync"
version = "0.1.0"
edition = "2021"
publish = false

[dependencies]
sha1 = "*"
hex = "*"
reqwest = { version = "*", default-features = false, features = ["blocking", "json"] }
serde = { version = "*", features = ["derive"] }
serde_json = "*"
chrono = "*"
regex = "*"
