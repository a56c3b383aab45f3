[package]
name = "helpmsg"
version = "0.1.0"
edition = "2021"
publish = false

[dependencies]
anyhow = "1"
pico-args = "*"
winapi = { version = "0.3", features = ["libloaderapi", "winbase", "winnt", "ntdef", "minwindef", "winerror"] }
ntapi = "*"
