[package]
name = "gate"
version = "0.1.0"
edition = "2021"
publish = false

[dependencies]
crossbeam-channel = "0.5"
sysinfo = "0.30"
humansize = "2"
open = "5"
trash = "5"
egui = { version = "0.29", default-features = false }
