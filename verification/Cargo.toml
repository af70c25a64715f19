[package]
name = "elder_quorum"
version = "0.1.0"
edition = "2021"
publish = false

[dependencies]
stateright = "0.30"
env_logger = "0.10"
num_cpus = "1"
