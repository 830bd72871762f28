[package]
name = "yoke"
version = "0.1.0"
edition = "2021"
publish = false

[dependencies]
ariadne = "=0.6.0"
clap = { version = "=4.6.7", features = ["derive"] }
inkwell = { version = "=0.11.0", features = ["llvm14-0-force-dynamic"] }
lalrpop-util = "=0.23.2"
libc = "=0.2.191"
