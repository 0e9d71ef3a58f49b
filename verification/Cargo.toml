[package]
name = "data_structures"
version = "0.1.0"
edition = "2021"

[dependencies]
replace_with = "0.1"
