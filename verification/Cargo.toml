[package]
name = "memory_pool"
version = "0.1.0"
edition = "2021"
publish = false

[dependencies]
slotmap = "1"
spin = "0.10"
log = "0.4"
