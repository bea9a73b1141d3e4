[package]
name = "arraystring"
version = "0.1.0"
edition = "2021"
publish = false

[dependencies]
serde = { version = "*", features = ["derive"] }
diesel = { version = "*", default-features = false }
