[package]
name = "rust_autotune"
version = "0.1.0"
edition = "2021"
publish = false

[dependencies]
anyhow = "1"
clap = { version = "4", features = ["derive"] }
cpal = "0.15"
ctrlc = "3"
rtrb = "0.3"
rustfft = "6"
