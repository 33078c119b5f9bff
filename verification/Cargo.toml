[package]
name = "handy"
version = "0.1.0"
edition = "2021"
publish = false

[dependencies]
uuid = { version = "1", features = ["v4"] }
ferrous-opencc = "*"
serde = { version = "1", features = ["derive"] }
serde_json = "1"
flate2 = "1"
tar = "0.4"
hound = "3"
anyhow = "1"
log = "0.4"
dirs = "5"
ureq = { version = "2", default-features = false }
clap = { version = "4", features = ["derive"] }
rubato = "0.16"
audiopus = "0.2"
