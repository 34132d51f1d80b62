[package]
name = "md_render"
version = "0.1.0"
edition = "2021"
publish = false

[dependencies]
pulldown-cmark = "*"
ratatui = "*"
crossterm = "*"
