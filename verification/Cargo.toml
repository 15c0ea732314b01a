[package]
name = "browser_utils"
version = "0.1.0"
edition = "2021"
publish = false

[dependencies]
base64 = "0.22"
js-sys = "0.3"
wasm-bindgen = "0.2"
web-sys = { version = "0.3", features = ["Window", "Document", "Element", "HtmlElement", "HtmlInputElement", "HtmlTextAreaElement", "Location", "EventTarget", "Node"] }
