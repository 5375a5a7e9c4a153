[package]
name = "stylist"
version = "0.1.0"
edition = "2021"
publish = false

[dependencies]
rand = "*"
wasm-bindgen = "*"
web-sys = { version = "*", features = ["Window", "Document", "Element", "HtmlHeadElement", "Node"] }
