[package]
name = "fs_watcher"
version = "0.1.0"
edition = "2021"
publish = false

[dependencies]
anyhow = "1"
dunce = "1"
log = "0.4"
notify = "8"
parking_lot = "0.12"
smol = "2"
