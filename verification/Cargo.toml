[package]
name = "aurora"
version = "0.1.0"
edition = "2021"
publish = false

[dependencies]
selectors = "=0.38.0"
cssparser = "=0.37.0"
precomputed-hash = "=0.1.1"
html5ever = "=0.35.0"
markup5ever = "=0.35.0"
url = "=2.5.8"
log = "0.4"
reqwest = { version = "=0.12.28", default-features = false, features = ["blocking", "rustls-tls"] }
blitz-dom = { version = "=0.2.4", default-features = false }
blitz-html = "=0.2.0"
blitz-traits = "=0.2.0"
blitz-paint = { version = "=0.2.1", default-features = false }
stylo = "=0.8.0"
anyrender = "=0.6.2"
anyrender_vello = "=0.6.2"
vello = "=0.6.0"
