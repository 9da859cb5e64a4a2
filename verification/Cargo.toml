[package]
name = "snow_automata"
version = "0.1.0"
edition = "2021"

[dependencies]
colored = "*"
