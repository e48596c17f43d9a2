[package]
name = "web_pub"
version = "0.1.0"
edition = "2021"
publish = false

[dependencies]
percent-encoding = "2"
pulldown-cmark = { version = "0.8", default-features = false }
kuchiki = "0.8"
html5ever = "0.25"
rand = "0.8"
glob = "0.3"
structopt = "0.3"
serde = { version = "1", features = ["derive"] }
toml = "0.5"
swc = "*"
swc_common = { version = "*", features = ["tty-emitter"] }
