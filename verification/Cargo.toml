[package]
name = "ruplacer"
version = "0.1.0"
edition = "2021"
publish = false

[dependencies]
regex = "1"
Inflector = "0.11"
colored = "2"
