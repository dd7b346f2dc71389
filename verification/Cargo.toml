[package]
name = "pixm"
version = "0.1.0"
edition = "2021"
publish = false

[dependencies]
bitcode = { version = "0.6", features = ["derive"] }
fixed = "1"
godot = "0.2"
hecs = "0.10"
tracing = "0.1"
