[package]
name = "gitostat"
version = "0.1.0"
edition = "2021"
publish = false

[dependencies]
git2 = "*"
chrono = "0.4"
