[package]
name = "vellum"
version = "0.1.0"
edition = "2021"
publish = false

[dependencies]
quick-xml = "=0.37.5"
pulldown-cmark = { version = "=0.12.2", default-features = false }
zip = "=2.6.1"
ratatui = "=0.29.0"
crossterm = "=0.28.1"
image = "=0.25.10"
ratatui-image = "=8.1.1"
