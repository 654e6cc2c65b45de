[package]
name = "esp32_nimble"
version = "0.1.0"
edition = "2021"
publish = false

[dependencies]
esp-idf-sys = "*"
log = "0.4"
