[package]
name = "ontologica"
version = "0.1.0"
edition = "2021"
publish = false

[dependencies]
indexmap = "*"
rand = "*"
pest = "*"
pest_derive = "*"
