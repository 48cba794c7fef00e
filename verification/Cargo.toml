[package]
name = "minimalist_order_book"
version = "0.1.0"
edition = "2021"
publish = false

[dependencies]
rust_decimal = { version = "1", default-features = false, features = ["std"] }
rustc-hash = "2"
thiserror = "2"
