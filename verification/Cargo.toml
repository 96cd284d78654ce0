[package]
name = "psh"
version = "0.1.0"
edition = "2021"
publish = false

[dependencies]
libc = "0.2"
bpaf = { version = "0.9", features = ["derive"] }
signals_receipts = "*"

[dev-dependencies]
