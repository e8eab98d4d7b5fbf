[package]
name = "auto_water"
version = "0.1.0"
edition = "2021"
publish = false

[dependencies]
httparse = "1"
critical-section = "1"
defmt = "*"
embassy-executor = "*"
embassy-net = { version = "*", features = ["tcp", "dhcpv4", "proto-ipv4", "medium-ethernet"] }
embassy-time = "*"
embedded-io-async = "*"
embedded-storage = "*"
esp-alloc = "*"
esp-backtrace = "*"
esp-bootloader-esp-idf = "*"
esp-hal = "*"
esp-nvs = "*"
esp-println = "*"
esp-radio = "*"
esp-rtos = "*"
esp-storage = "*"
static_cell = "*"
