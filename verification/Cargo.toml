[package]
name = "takeout_meta"
version = "0.1.0"
edition = "2021"
publish = false

[dependencies]
chrono = "0.4"
serde = { version = "1", features = ["derive"] }
serde_json = "1"
anyhow = "1"
zip = { version = "*", default-features = false, features = ["deflate"] }
walkdir = "2"
tempfile = "3"
which = "*"
filetime = "0.2"
image = { version = "0.25", default-features = false, features = ["png"] }
windows-sys = { version = "*", features = ["Win32_Foundation", "Win32_Storage_FileSystem"] }
