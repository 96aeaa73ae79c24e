[package]
name = "neo_riscv_vm"
version = "0.1.0"
edition = "2021"
publish = false

[dependencies]
polkavm = "0.37.0"
postcard = { version = "1.1.3", features = ["alloc"] }
serde = { version = "1.0.229", features = ["derive"] }
thiserror = "2.0.21"
