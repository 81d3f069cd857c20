[package]
name = "kernel"
version = "0.1.0"
edition = "2021"
publish = false

[dependencies]
elf = "=0.8.0"
limine = "=0.5.0"
