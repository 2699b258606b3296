[package]
name = "lspk_mod"
version = "0.1.0"
edition = "2021"
publish = false

[dependencies]
lz4_flex = "*"
md5 = "*"
xmltree = "*"
clap = { version = "*", features = ["derive"] }
