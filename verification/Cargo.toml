[package]
name = "radio_tipe_poc"
version = "0.1.0"
edition = "2021"
publish = false

[dependencies]
getrandom = "0.2"
lru = "0.12"
embedded-hal = "0.2"
radio = "0.11"
radio-sx127x = "0.14"
log = "0.4"
anyhow = "1"
