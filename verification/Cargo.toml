[package]
name = "ttrack_pro"
version = "0.1.0"
edition = "2021"
publish = false

[dependencies]
aes-gcm = "0.10"
anyhow = "1"
bcrypt = "0.15"
byteorder = "1"
chrono = "0.4"
clap = { version = "4", features = ["derive"] }
dirs = "5"
nix = { version = "0.29", features = ["socket", "user"] }
portable-pty = "0.8"
rand = "0.8"
regex = "1"
rpassword = "7"
serde = { version = "1", features = ["derive"] }
serde_json = "1"
zeroize = "1"
