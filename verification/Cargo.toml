[package]
name = "vivere"
version = "0.3.0"
edition = "2021"
publish = false

[dependencies]
serde = { version = "1", features = ["derive"] }
postcard = { version = "1", features = ["alloc"] }
libm = "0.2"
toml = "0.8"
clap = { version = "4", features = ["derive"] }
gif = "0.13"
crossterm = "0.28"
macroquad = "0.4"
