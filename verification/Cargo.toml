[package]
name = "sokoban_solver"
version = "0.1.0"
edition = "2021"
publish = false

[dependencies]
arrayvec = "0.7"
rustc-hash = "2"
smallvec = "1"
