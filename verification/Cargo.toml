[package]
name = "justlatex"
version = "0.1.0"
edition = "2021"
publish = false

[dependencies]
anyhow = "1"
base64 = "0.13"
bytesize = "1"
config = { version = "0.13", default-features = false, features = ["toml"] }
html-escape = "0.2"
indoc = "1"
quick-xml = "0.23"
regex = "1"
rustybuzz = "0.5"
serde = { version = "1", features = ["derive"] }
serde_json = "1"
tempfile = "3"
ttf-parser = "0.15"
usvg = "0.22"
xz2 = "0.1"
