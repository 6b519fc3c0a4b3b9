[package]
name = "terragen"
version = "0.1.0"
edition = "2021"
publish = false

[dependencies]
clap = { version = "4", features = ["derive"] }
log = "0.4"
stderrlog = "*"
serde = { version = "1", features = ["derive"] }
serde_yaml = "*"
serde-inline-default = "*"
validator = { version = "*", features = ["derive"] }
glam = { version = "*", features = ["serde"] }
ego-tree = { version = "*", features = ["serde"] }
sdl3 = "*"
sdl3-sys = "*"
