[package]
name = "minesweeper_render"
version = "0.1.0"
edition = "2021"
publish = false

[dependencies]
gif = "*"
image = "*"
serde = { version = "*", features = ["derive"] }
thiserror = "*"
worker = "*"
