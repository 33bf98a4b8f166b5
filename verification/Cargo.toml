[package]
name = "bevy_ecs"
version = "0.1.0"
edition = "2021"
publish = false

[dependencies]
fixedbitset = "0.4"
petgraph = "0.6"
