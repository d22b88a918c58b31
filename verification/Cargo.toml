[package]
name = "workstation"
version = "0.1.0"
edition = "2021"
publish = false

[dependencies]
aec3 = "0.3"
anyhow = "1"
clap = { version = "4", features = ["derive"] }
console = "*"
dirs = "*"
libc = "0.2"
nnnoiseless = "*"
objc2 = "*"
objc2-app-kit = "*"
objc2-core-audio = "*"
objc2-core-audio-types = "*"
objc2-core-foundation = "*"
objc2-foundation = "*"
serde = { version = "1", features = ["derive"] }
serde_json = "1"
tracing = "0.1"
tracing-subscriber = { version = "0.3", features = ["env-filter"] }
trash = "*"
walkdir = "2"
