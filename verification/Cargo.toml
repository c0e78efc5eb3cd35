[package]
name = "cargo-spellcheck"
version = "0.1.0"
edition = "2021"
publish = false

[dependencies]
anyhow = "1"
console = "0.11"
crossterm = "0.17"
indexmap = "1"
itertools = "0.9"
log = "0.4"
pulldown-cmark = { version = "0.7", default-features = false }
