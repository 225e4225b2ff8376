[package]
name = "pickledb"
version = "0.1.0"
edition = "2021"
publish = false

[dependencies]
aes-gcm = "0.10"
hkdf = "0.12"
hmac = "0.12"
sha2 = "0.10"
rand = "0.8"
serde = { version = "1", features = ["derive"] }
bincode = "1"
hex = "0.4"
anyhow = "1"
thiserror = "1"
parking_lot = "0.12"
clap = { version = "4", features = ["derive", "env"] }
clap_complete = "4"
colored = "2"
rustyline = "14"
