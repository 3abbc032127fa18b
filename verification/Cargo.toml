[package]
name = "idna"
version = "0.1.0"
edition = "2021"
publish = false

[dependencies]
unicode-bidi = "0.3"
unicode-normalization = "0.1"
encoding_rs = "0.8"
