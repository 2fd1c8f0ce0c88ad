[package]
name = "eol_attributes"
version = "0.1.0"
edition = "2021"
publish = false

[dependencies]
gix = { version = "=0.73.0", default-features = false, features = ["attributes"] }
kstring = "=2.0.2"
tokio = { version = "1", default-features = false, features = ["io-util"] }
