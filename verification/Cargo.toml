[package]
name = "u32_split_gates"
version = "0.1.0"
edition = "2021"
publish = false

[dependencies]
anyhow = "*"
plonky2 = "*"
plonky2_u32 = "*"
