[package]
name = "terma"
version = "0.1.0"
edition = "2021"
publish = false

[dependencies]
anyhow = "1"
base64 = "0.22"
chafa-sys = "*"
crc32fast = "1"
crossterm = "0.28"
dirs = "5"
flate2 = "1"
image = { version = "0.25", default-features = false, features = ["png", "jpeg", "gif", "webp", "bmp"] }
libc = "0.2"
log = "0.4"
regex-lite = "0.1"
serde = { version = "1", features = ["derive"] }
serde_json = "1"
tar = "0.4"
tempfile = "3"
terminal_size = "0.4"
unicode-width = "*"
walkdir = "2"
which = "*"
zip = { version = "*", default-features = false, features = ["deflate"] }
