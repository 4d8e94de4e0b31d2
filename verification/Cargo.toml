[package]
name = "stabilizer_ch_form"
version = "0.1.0"
edition = "2021"
publish = false

[dependencies]
rand = "0.8"
num-complex = "0.4"
ndarray = "0.15"
