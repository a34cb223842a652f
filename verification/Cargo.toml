[package]
name = "reversi_game"
version = "0.3.2"
edition = "2021"
publish = false

[dependencies]
clap = "3"
clearscreen = "*"
colored = "*"
itertools = "*"
spinners = "*"
split-iter = "*"
