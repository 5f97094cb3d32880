[package]
name = "source2_demo"
version = "0.1.0"
edition = "2021"
publish = false

[dependencies]
anyhow = "*"
bitter = "*"
memmap2 = "*"
prettytable-rs = "*"
