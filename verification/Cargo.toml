[package]
name = "hisi_rtos"
version = "0.1.0"
edition = "2021"
publish = false

[dependencies]
critical-section = { version = "1.2", features = ["std"] }
embassy-time-driver = { version = "0.2", features = ["tick-hz-1_000_000"] }
embassy-time-queue-utils = { version = "0.3", features = ["generic-queue-16"] }
hisi-alloc = "0.1.0-alpha.3"
hisi-rf-rtos-driver = "0.1.0-alpha.20"
