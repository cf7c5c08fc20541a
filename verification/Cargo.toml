[package]
name = "quadstore"
version = "0.1.0"
edition = "2021"
publish = false

[dependencies]
siphasher = "0.3"
sysinfo = { version = "0.29", default-features = false }
