[package]
name = "mybril"
version = "0.1.0"
edition = "2021"
publish = false

[dependencies]
serde = { version = "=1.0.229", features = ["derive"] }
serde_json = "=1.0.154"
llvm-plugin = { version = "=0.6.0", features = ["llvm17-0"] }
