[package]
name = "flood_it"
version = "0.1.0"
edition = "2021"
publish = false

[dependencies]
macroquad = "*"
clap = "*"
