[package]
name = "fuzz_analyzer"
version = "0.1.0"
edition = "2021"
publish = false

[dependencies]
chrono = "*"
clap = { version = "*", features = ["derive"] }
csv = "*"
dirs = "*"
eyre = "*"
glob = "*"
indicatif = "*"
plotters = { version = "*", default-features = false, features = ["bitmap_backend", "bitmap_encoder", "line_series"] }
rayon = "*"
tracing = "*"
tracing-appender = "*"
tracing-subscriber = "*"
