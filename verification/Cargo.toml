[package]
name = "simple_fatfs"
version = "0.1.0"
edition = "2021"
publish = false

[dependencies]
embedded-storage = "0.3"
embedded-io = "0.6"
codepage = "0.1"

[dev-dependencies]
rand = "0.9"
