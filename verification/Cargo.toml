[package]
name = "chibidec"
version = "0.1.0"
edition = "2021"
publish = false

[dependencies]
anyhow = "1"
capstone = "0.13"
goblin = "0.10"
id-arena = "2"
petgraph = "0.8"
