[package]
name = "tagua_literals"
version = "0.1.0"
edition = "2021"
publish = false

[dependencies]
nom = "1.2.4"
