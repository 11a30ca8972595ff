[package]
name = "guest_abi"
version = "0.1.0"
edition = "2021"
publish = false

[dependencies]
anyhow = "=1.0.104"
thiserror = "=2.0.21"
wasmtime = { version = "=47.0.4", default-features = false, features = ["async", "cranelift", "runtime", "std"] }
