[package]
name = "rvet"
version = "0.1.0"
edition = "2021"
publish = false

[dependencies]
riscv-etrace = { version = "=0.10.0", features = ["alloc", "elf", "either", "riscv-isa", "serde"] }
riscv-isa = "=0.3.1"
elf = "=0.8.0"
either = "=1.19.0"
anyhow = "=1.0.104"
clap = { version = "=4.6.7", features = ["derive"] }
cli-table = "=0.5.0"
toml = "=1.1.8"
