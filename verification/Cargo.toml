[package]
name = "gradu"
version = "0.1.0"
edition = "2021"
publish = false

[dependencies]
symbol_table = { version = "*", features = ["global"] }
lalrpop-util = "*"
