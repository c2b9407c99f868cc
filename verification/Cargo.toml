[package]
name = "xecs"
version = "0.1.0"
edition = "2021"
publish = false

[dependencies]
xsparseset = "=0.1.5"
