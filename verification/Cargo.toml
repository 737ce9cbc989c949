[package]
name = "expressur"
version = "0.1.0"
edition = "2021"
publish = false

[dependencies]
rust_decimal = { version = "=1.43.0", default-features = false, features = ["std", "maths-nopanic"] }
rust_decimal_macros = "=1.40.0"
num-format = "=0.4.4"
