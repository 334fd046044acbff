[package]
name = "corg"
version = "0.1.0"
edition = "2021"
publish = false

[dependencies]
md5 = "0.7"
shlex = "1"
anyhow = "1"
thiserror = "1"
colored = "2"
difference = "2"
clap = { version = "3", features = ["derive"] }

[dev-dependencies]
regex = "1"
