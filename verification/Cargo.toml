[package]
name = "toast"
version = "0.1.0"
edition = "2021"
publish = false

[dependencies]
linked_list_allocator = { version = "=0.9.1", default-features = false }
limine = "=0.5.0"
spin = "=0.9.9"
conquer-once = { version = "=0.4.0", default-features = false }
x86_64 = { version = "=0.15.5", default-features = false, features = ["instructions"] }
bitflags = "=2.13.2"
