[package]
name = "arceos_core"
version = "0.1.0"
edition = "2021"
publish = false

[dependencies]
axerrno = "=0.1.2"
axhal = "=0.2.2-preview.6"
axtask = "=0.2.2-preview.3"
