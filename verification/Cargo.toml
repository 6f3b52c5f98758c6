[package]
name = "protox"
version = "0.1.0"
edition = "2021"
publish = false

[dependencies]
logos = "0.12"
miette = "5"
once_cell = "1"
thiserror = "1"
