[package]
name = "zmap_rs"
version = "0.1.0"
edition = "2021"
publish = false

[dependencies]
aes = "0.8"
affinity = "0.1"
clap = { version = "4", features = ["derive"] }
env_logger = "0.11"
etherparse = "0.16"
eui48 = "1.1"
libc = "0.2"
log = "0.4"
num = "0.4"
rand = "0.8"
socket2 = "0.5"
