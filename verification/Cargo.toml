[package]
name = "time_game_lib"
version = "0.1.0"
edition = "2021"
publish = false

[dependencies]
rand = "0.5"
petgraph = "0.4"
slotmap = "0.4"
