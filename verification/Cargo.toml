[package]
name = "llvmpass"
version = "0.1.0"
edition = "2021"
publish = false

[dependencies]
llvm-plugin = { version = "=0.6.0", features = ["llvm14-0"] }
