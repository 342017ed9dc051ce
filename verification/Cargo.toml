[package]
name = "tlv_parser"
version = "0.1.0"
edition = "2021"

[dependencies]
hex = "0.4"

[dev-dependencies]
quickcheck = { version = "1", default-features = false }
