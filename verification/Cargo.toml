[package]
name = "disk_ringbuffer"
version = "0.1.0"
edition = "2021"
publish = false

[dependencies]
memmap2 = "*"
mmap-wrapper = "*"
