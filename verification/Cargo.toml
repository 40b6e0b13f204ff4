[package]
name = "ns_pixels"
version = "0.1.0"
edition = "2021"
publish = false

[dependencies]
embassy-embedded-hal = "0.6"
embassy-executor = "0.10"
embassy-futures = "0.1"
embassy-net = { version = "0.9", features = ["dns", "tcp", "dhcpv4", "medium-ethernet"] }
embassy-sync = "0.8"
embassy-time = "0.5"
embedded-graphics = "0.8"
embedded-io-async = "0.7"
esp-alloc = { version = "0.10", features = ["nightly"] }
esp-backtrace = { version = "0.19", features = ["esp32s3", "panic-handler", "println"] }
esp-bootloader-esp-idf = { version = "0.5", features = ["esp32s3"] }
esp-hal = { version = "1.1", features = ["esp32s3", "unstable"] }
esp-hub75 = { version = "0.15", features = ["esp32s3"] }
esp-println = { version = "0.17", features = ["esp32s3", "log-04"] }
esp-radio = { version = "0.18", features = ["esp32s3", "esp-alloc", "wifi", "unstable"] }
esp-rtos = { version = "0.3", features = ["esp32s3", "embassy", "esp-radio", "esp-alloc"] }
esp-storage = { version = "0.9", features = ["esp32s3"] }
heapless = { version = "=0.8.0", features = ["serde"] }
log = "0.4"
miniz_oxide = "=0.9.1"
reqwless = "0.14"
sequential-storage = "7"
serde = { version = "1", default-features = false, features = ["derive"] }
serde-json-core = "0.6"
static_cell = "2"
xmlparser = "=0.13.6"
