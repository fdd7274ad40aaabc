[package]
name = "substringcounter"
version = "0.1.0"
edition = "2021"
publish = false

[dependencies]
clap = "4"
itertools = "*"
rayon = "1"
serde_json = "1"
tokio = { version = "1", features = ["macros", "rt-multi-thread", "sync"] }
walkdir = "2"
