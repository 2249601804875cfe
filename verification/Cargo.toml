[package]
name = "tab_strip"
version = "0.1.0"
edition = "2021"
publish = false

[dependencies]
ansi_term = "*"
unicode-width = "*"
zellij-tile = "*"
zellij-tile-utils = "*"
serde = "*"
serde_json = "*"
