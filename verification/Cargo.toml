[package]
name = "zero_kernel"
version = "0.1.0"
edition = "2021"
publish = false

[dependencies]
bootloader_api = "=0.11.17"
flat_device_tree = "=3.1.1"
lazy_static = "=1.5.1"
libm = "=0.2.16"
x86_64 = { version = "=0.15.5", default-features = false, features = ["instructions"] }
