[package]
name = "water_sort_core"
version = "0.1.0"
edition = "2021"
publish = false

[dependencies]
rand = "0.9"
getrandom = "0.3"
wasm-bindgen = "0.2"
wasm-bindgen-futures = "0.4"
futures-channel = "0.3"
web-sys = { version = "0.3", features = ["Window", "Document", "Element", "HtmlElement", "Node", "CssStyleDeclaration", "EventTarget"] }
