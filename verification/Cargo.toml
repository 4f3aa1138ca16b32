[package]
name = "poutre"
version = "0.1.0"
edition = "2021"
publish = false

[dependencies]
noise = "=0.9.0"
glam = "=0.34.2"
spacetimedb = "=2.5.0"
