[package]
name = "archetype_ecs"
version = "0.1.0"
edition = "2021"
publish = false

[dependencies]
ahash = "0.8"
nohash-hasher = "0.2"
