[package]
name = "chrome_dom_diff"
version = "0.1.0"
edition = "2021"
publish = false

[dependencies]
bumpalo = "3"
serde_json = "1.0"
