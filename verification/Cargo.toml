[package]
name = "tumbleweed"
version = "0.1.0"
edition = "2021"
publish = false

[dependencies]
qrcode = { version = "0.14", default-features = false }
russh-keys = "0.44"
russh = "0.44"
russh-sftp = "2"
tokio = { version = "1", features = ["rt-multi-thread", "net", "io-util", "fs", "time", "sync"] }
async-trait = "0.1"
anyhow = "1"
log = "0.4"
socket2 = "0.5"
