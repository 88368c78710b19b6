[package]
name = "coverage_filter"
version = "0.1.0"
edition = "2021"

[dependencies]
roaring = "*"
serde = { version = "*", features = ["derive"] }
rayon = "*"
