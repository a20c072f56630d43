[package]
name = "setman"
version = "0.1.0"
edition = "2021"
publish = false

[dependencies]
clap = "=4.6.7"
colored = "=3.1.1"
dialoguer = "=0.12.0"
git2 = { version = "=0.21.0", default-features = false, features = ["cred"] }
home = "=0.5.12"
regex = "=1.13.1"
uuid = { version = "=1.27.0", features = ["v4"] }
