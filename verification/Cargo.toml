[package]
name = "grex"
version = "1.4.4"
edition = "2021"
publish = false

[dependencies]
unicode-segmentation = "1"
unic-ucd-category = "0.9"
colored = "2"
regex = "1"
petgraph = "0.6"
itertools = "0.11"
clap = { version = "4", features = ["derive"] }
atty = "0.2"
