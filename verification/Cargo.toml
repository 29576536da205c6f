[package]
name = "llvm_ir_analysis"
version = "0.1.0"
edition = "2021"
publish = false

[dependencies]
petgraph = { version = "=0.6.5", default-features = false, features = ["graphmap"] }
either = "=1.19.0"
llvm-ir = { version = "=0.8.2", features = ["llvm-14"] }
llvm-sys = { version = "=140.1.3", features = ["prefer-dynamic"] }
