[package]
name = "mdbook_chapter_path"
version = "0.1.0"
edition = "2021"
publish = false

[dependencies]
regex = "1"
mdbook = { version = "0.4", default-features = false }
toml = "0.5"
clap = "2"
serde_json = "1"
