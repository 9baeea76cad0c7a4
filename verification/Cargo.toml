[package]
name = "electro_solve"
version = "0.1.0"
edition = "2021"
publish = false

[dependencies]
clap = "4"
num-complex = "0.4"
