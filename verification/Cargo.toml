[package]
name = "todomvc_core"
version = "0.1.0"
edition = "2021"
publish = false

[dependencies]
yew = { version = "0.21", features = ["csr"] }
gloo = "0.11"
web-sys = { version = "0.3", features = ["HtmlInputElement", "Storage", "Window"] }
wasm-logger = "0.2"
