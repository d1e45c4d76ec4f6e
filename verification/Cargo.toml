[package]
name = "tetris"
version = "0.1.0"
edition = "2021"
publish = false

[dependencies]
rand = "=0.6.5"
rand_xoshiro = "=0.2.0"
termion = "=1.5.6"
