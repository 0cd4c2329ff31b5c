[package]
name = "orbtk_core"
version = "0.1.0"
edition = "2021"
publish = false

[dependencies]
ron = "*"
serde = { version = "1", features = ["derive"] }
rust_decimal = "1"
