[package]
name = "epok"
version = "0.1.0"
edition = "2021"
publish = false

[dependencies]
sha256 = "1"
clap = { version = "4", features = ["derive", "env"] }
cmd_lib = "1"
lazy_static = "1"
