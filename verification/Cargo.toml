[package]
name = "ferris-finder"
version = "0.1.0"
edition = "2021"
publish = false

[dependencies]
fuzzy-matcher = "0.3"
rayon = "1"
crossterm = "0.25"
tui = "0.19"
color-eyre = "0.6"
directories = "4"
flate2 = "1"
reqwest = { version = "0.11", default-features = false, features = ["blocking"] }
