[package]
name = "syntax_cursor"
version = "0.1.0"
edition = "2021"
publish = false

[dependencies]
countme = "3.0"

[dev-dependencies]
countme = { version = "3.0", features = ["enable"] }
