[package]
name = "cri_archive_lib"
version = "0.2.0"
edition = "2021"
publish = false

[dependencies]
encoding_rs = "0.8"
indicatif = "0.17"
