[package]
name = "coredata"
version = "26.1.0"
edition = "2021"
publish = false

[dependencies]
aes-gcm = "0.10"
chrono = "0.4"
dirs = "*"
fs2 = "0.4"
hkdf = "0.12"
indexmap = "2"
once_cell = "1"
rand = "0.8"
rusqlite = { version = "*", features = ["bundled"] }
serde = { version = "1", features = ["derive"] }
serde_json = "1"
sha2 = "0.10"
thiserror = "*"
uuid = { version = "1", features = ["v4"] }
zeroize = { version = "1", features = ["derive"] }

[dev-dependencies]
tempfile = "*"
