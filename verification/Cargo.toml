[package]
name = "nuclea_r_os"
version = "0.1.0"
edition = "2021"
publish = false

[dependencies]
x86_64 = { version = "=0.15.5", default-features = false }
pc-keyboard = "=0.9.0"
