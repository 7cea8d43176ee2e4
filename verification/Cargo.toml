[package]
name = "hostimg"
version = "0.1.0"
edition = "2021"
publish = false

[dependencies]
sha2 = "*"
image = { version = "*", default-features = false, features = ["jpeg"] }
rusqlite = { version = "*", features = ["bundled"] }
notify = "*"
