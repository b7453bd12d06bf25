[package]
name = "faer_precond"
version = "0.2.0"
edition = "2021"
publish = false

[dependencies]
faer = "0.24"
faer-traits = "0.24"
dyn-stack = "0.13"
