[package]
name = "psweep"
version = "0.1.0"
edition = "2021"
publish = false

[dependencies]
listeners = "*"
sysinfo = "*"
