[package]
name = "wordle_strats"
version = "0.1.0"
edition = "2021"
publish = false

[dependencies]
ordes = "*"
rayon = "*"
