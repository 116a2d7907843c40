[package]
name = "dirty_memtable"
version = "0.1.0"
edition = "2021"
publish = false

[dependencies]
rand = "=0.8.8"
lazy_static = "=1.5.1"
rustler = "=0.33.0"
