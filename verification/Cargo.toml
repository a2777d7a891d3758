[package]
name = "harp_pedal_solver"
version = "0.1.0"
edition = "2021"
publish = false

[dependencies]
pathfinding = "4"
clap = { version = "4", features = ["derive"] }
clap-verbosity-flag = "2"
log = "0.4"
simple_logger = "4"
nom = "7"
