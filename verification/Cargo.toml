[package]
name = "merovingian"
version = "0.1.0"
edition = "2021"
publish = false

[dependencies]
strsim = "*"
flate2 = "*"
reqwest = { version = "*", default-features = false, features = ["blocking"] }
