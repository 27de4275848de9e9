[package]
name = "bilibili_extractor"
version = "0.1.0"
edition = "2021"
publish = false

[dependencies]
rsubs-lib = "*"
serde = { version = "*", features = ["derive"] }
serde_json = { version = "*", features = ["arbitrary_precision"] }
clap = { version = "*", features = ["derive"] }
rayon = "*"
