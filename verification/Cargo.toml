[package]
name = "kernel_core"
version = "0.1.0"
edition = "2021"
publish = false

[dependencies]
spin = "0.9"
linked_list_allocator = "0.10"
