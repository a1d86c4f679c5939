[package]
name = "modbus_translator"
version = "0.1.0"
edition = "2021"
publish = false

[dependencies]
csv = "1"
serde = { version = "1", features = ["derive"] }
evalexpr = "12"
lookups = "*"
borsh = { version = "1", features = ["derive"] }
field_accessor = "*"
