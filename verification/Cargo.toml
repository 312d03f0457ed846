[package]
name = "embark"
version = "0.1.0"
edition = "2021"
publish = false

[dependencies]
miniz_oxide = "0.8"
lz4_flex = { version = "0.11", default-features = false, features = ["std", "safe-encode", "safe-decode"] }
ruzstd = "*"
chacha20poly1305 = "0.10"
aes-gcm = "0.10"
getrandom = "0.3"
syn = { version = "2", features = ["full"] }
quote = "1"
proc-macro2 = "1"
