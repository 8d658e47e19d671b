[package]
name = "bundle"
version = "0.1.0"
edition = "2021"
publish = false

[dependencies]
globset = "*"
murmurhash64 = "*"
oodle-safe = "*"
oodle-sys = "*"
clap = { version = "*", features = ["derive"] }
rayon = "*"
cliclack = "*"
fancy-duration = "*"
human-repr = "*"
tracing = "*"
tracing-subscriber = "*"
