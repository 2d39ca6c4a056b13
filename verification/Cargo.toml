[package]
name = "rust_os"
version = "0.1.0"
edition = "2021"
publish = false

[dependencies]
bootloader = { version = "0.9", features = ["map_physical_memory"] }
conquer-once = { version = "0.2", default-features = false }
futures-util = { version = "0.3", default-features = false, features = ["alloc"] }
lazy_static = "1.4"
pc-keyboard = "0.7"
pic8259 = { version = "0.11", default-features = false, features = ["stable"] }
spin = "0.9"
volatile = "0.2.6"
x86_64 = { version = "0.15", default-features = false, features = ["instructions"] }
