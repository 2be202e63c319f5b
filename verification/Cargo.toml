[package]
name = "compiler"
version = "0.1.0"
edition = "2021"
publish = false

[dependencies]
anyhow = "1"
itertools = "*"
lalrpop-util = "*"
thiserror = "1"
