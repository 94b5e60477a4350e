[package]
name = "branch_and_bound"
version = "0.1.0"
edition = "2021"
publish = false

[dependencies]
bitcoin = "*"
rand = "0.8"
