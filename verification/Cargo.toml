[package]
name = "harness_book"
version = "0.1.0"
edition = "2021"
publish = false

[dependencies]
sha2 = "0.10"
toml = "*"
zip = { version = "*", default-features = false, features = ["deflate"] }
