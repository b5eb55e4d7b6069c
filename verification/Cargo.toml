[package]
name = "ammeter"
version = "0.1.0"
edition = "2021"
publish = false

[dependencies]
anyhow = "1"
btleplug = "0.13"
chrono = "0.4"
clap = { version = "4", features = ["derive"] }
cortex-m = "0.7"
critical-section = "1"
embassy-executor = "0.10"
embassy-futures = "0.1"
embassy-time = "0.5"
embedded-graphics = "0.8"
embedded-graphics-core = "0.4"
embedded-hal = "1"
embedded-io-async = "0.7"
futures = "0.3"
heapless = "0.8"
image = { version = "0.25", default-features = false, features = ["bmp", "png"] }
libm = "0.2"
nusb = "0.1"
pollster = "0.4"
ssd1306 = "0.10"
tokio = { version = "1", features = ["full"] }
uuid = "1"
