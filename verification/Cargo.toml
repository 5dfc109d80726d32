[package]
name = "rust_os"
version = "0.1.0"
edition = "2021"
publish = false

[dependencies]
bootloader = "=0.9.35"
lazy_static = "=1.5.1"
linked_list_allocator = { version = "=0.10.6", default-features = false }
pc-keyboard = "=0.5.1"
pic8259 = "=0.11.0"
spin = "=0.5.2"
uart_16550 = "=0.3.2"
volatile = "=0.2.7"
x86_64 = { version = "=0.15.5", default-features = false, features = ["instructions"] }
