[package]
name = "blockify"
version = "0.1.0"
edition = "2021"
publish = false

[dependencies]
deltae = "0.3"
lab = "0.11"
image = { version = "0.24", default-features = false, features = ["png"] }
fs_extra = "1"
