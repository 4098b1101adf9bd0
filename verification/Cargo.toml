[package]
name = "highlighter"
version = "0.1.0"
edition = "2021"
publish = false

[dependencies]
charabia = { version = "0.9", default-features = false }
serde = { version = "1", features = ["derive"] }
