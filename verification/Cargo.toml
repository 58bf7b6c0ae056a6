[package]
name = "treesize"
version = "0.1.0"
edition = "2021"
publish = false

[dependencies]
chrono = "*"
clap = { version = "*", features = ["derive"] }
crossbeam-channel = "*"
csv = "*"
fuzzy-matcher = "*"
ignore = "*"
num_cpus = "*"
parking_lot = "*"
printpdf = "*"
serde = { version = "*", features = ["derive"] }
serde_json = "*"
