[package]
name = "lang_tools"
version = "0.1.0"
edition = "2021"
publish = false

[dependencies]
anyhow = "*"
anstyle = "*"
arboard = "*"
clap = { version = "*", features = ["derive"] }
console = "*"
dialoguer = "*"
epub = "*"
html2text = "*"
itertools = "*"
lazy_static = "*"
reqwest = { version = "*", default-features = false, features = ["blocking"] }
serde = { version = "*", features = ["derive"] }
serde_yaml = "*"
shellexpand = "*"
srtlib = "*"
tabled = "*"
url = "*"
youtube_dl = "*"
