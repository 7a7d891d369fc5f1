[package]
name = "json5_backend"
version = "0.1.0"
edition = "2021"
publish = false

[dependencies]
bigdecimal = { version = "=0.4.11", features = ["serde"] }
json5 = "=1.3.3"
rustler = { version = "=0.33.0", features = ["big_integer"] }
serde = { version = "=1.0.229", features = ["derive"] }
