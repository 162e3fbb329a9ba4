[package]
name = "h7_bootloader"
version = "0.1.0"
edition = "2021"
publish = false

[dependencies]
cortex-m = "=0.7.10"
stm32h7-staging = { version = "=0.17.0", features = ["stm32h747cm7"] }
postcard = { version = "=1.1.3", features = ["alloc"] }
serde = { version = "=1.0.229", features = ["derive"] }
clap = { version = "=4.6.7", features = ["derive"] }
serialport = { version = "=4.10.1", default-features = false }
