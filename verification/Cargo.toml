[package]
name = "tg_rcore"
version = "0.1.0"
edition = "2021"
publish = false

[dependencies]
rangemap = "1"
xmas-elf = "0.9"
spin = "0.9"
riscv = "0.10"
virtio-drivers = "*"
fdt = "0.1"
buddy_system_allocator = "0.9"
customizable-buddy = "*"
embedded-graphics = "0.8"
tinybmp = "0.5"
page-table = "*"
