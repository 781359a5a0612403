[package]
name = "kbsearch"
version = "0.1.0"
edition = "2021"
publish = false

[dependencies]
clap = { version = "=4.6.7", features = ["derive"] }
serde = { version = "=1.0.229", features = ["derive"] }
serde_json = "=1.0.154"
pulldown-cmark = { version = "=0.11.3", default-features = false }
thiserror = "=2.0.21"
walkdir = "=2.5.0"
dunce = "=1.0.5"
jieba-rs = "=0.7.4"
pdf-extract = "0.10"
docx-lite = "0.2"

[dev-dependencies]
zip = { version = "0.6", default-features = false, features = ["deflate"] }
