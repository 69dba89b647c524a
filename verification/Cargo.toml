[package]
name = "xhman"
version = "0.1.0"
edition = "2021"
publish = false

[dependencies]
smithay-client-toolkit = { version = "0.18", default-features = false }
wayland-client = "0.31"
