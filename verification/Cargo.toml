[package]
name = "swarm_tracker"
version = "0.1.0"
edition = "2021"
publish = false

[dependencies]
url = "=2.5.8"
actix-web = "=4.15.0"
rand = "*"
