[package]
name = "jj_core"
version = "0.1.0"
edition = "2021"
publish = false

[dependencies]
crossterm = "*"
jujutsu-lib = "*"
rpassword = "*"
config = { version = "0.13", default-features = false, features = ["toml"] }
