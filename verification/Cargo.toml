[package]
name = "ax-tensor"
version = "0.1.0"
edition = "2021"
publish = false

[dependencies]
num-bigint = "0.4"
num-rational = "0.4"
num-traits = "0.2"
thiserror = "1"
lasso = "0.7"
anyhow = "1"
