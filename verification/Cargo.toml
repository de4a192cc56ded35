[package]
name = "svg-replace"
version = "0.1.0"
edition = "2021"
publish = false

[dependencies]
clap = { version = "4", features = ["derive"] }
font-kit = "*"
fontdue = "*"
resvg = "*"
serde_json = "1"
xmltree = { version = "*", features = ["attribute-order"] }
