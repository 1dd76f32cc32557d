[package]
name = "rustii"
version = "0.1.0"
edition = "2021"
publish = false

[dependencies]
aes = "=0.8.4"
anyhow = "=1.0.104"
byteorder = "=1.5.0"
cbc = "=0.1.2"
clap = { version = "=4.6.7", features = ["derive"] }
glob = "=0.3.4"
hex = "=0.4.3"
rand = "=0.9.5"
regex = "=1.13.1"
rsa = { version = "0.9", features = ["sha1"] }
sha1 = "=0.10.7"
thiserror = "=2.0.21"
