[package]
name = "kimun_editor"
version = "0.1.0"
edition = "2021"
publish = false

[dependencies]
pulldown-cmark = { version = "*", default-features = false }
unicode-segmentation = "*"
unicode-width = "*"
regex = "*"
ratatui = "*"
tokio = { version = "*", features = ["rt", "sync", "time", "macros"] }
tokio-util = "*"
nvim-rs = { version = "*", features = ["use_tokio"] }
async-trait = "*"
tracing = "*"
