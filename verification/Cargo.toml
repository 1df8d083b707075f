[package]
name = "vocab_tree"
version = "0.1.0"
edition = "2021"
publish = false

[dependencies]
itertools = "*"
pathfinding = "*"
regex = "*"
reqwest = { version = "*", features = ["blocking"] }
scraper = "*"
tst = "*"
