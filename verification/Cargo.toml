[package]
name = "neuraltype"
version = "0.1.0"
edition = "2021"
publish = false

[dependencies]
crossterm = "=0.28.1"
harfrust = "=0.15.0"
kurbo = "=0.11.3"
ratatui = "=0.29.0"
safetensors = "*"
serde = { version = "=1.0.229", features = ["derive"] }
serde_json = "=1.0.154"
ttf-parser = "=0.25.1"
