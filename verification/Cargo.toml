[package]
name = "bit_torrust"
version = "0.1.0"
edition = "2021"
publish = false

[dependencies]
bit-vec = "0.6"
byteorder = "1"
clap = { version = "4", features = ["derive"] }
hex = "0.4"
indexmap = "2"
reqwest = { version = "0.11", default-features = false, features = ["blocking"] }
sha1_smol = "1"
thiserror = "1"
