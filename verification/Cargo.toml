[package]
name = "inner_browser"
version = "0.1.0"
edition = "2021"
publish = false

[dependencies]
html5ever = "0.27"
markup5ever = "0.12"
markup5ever_rcdom = "0.3"
html-escape = "0.2"
url = "2"
serde = { version = "1", features = ["derive"] }
serde-wasm-bindgen = "0.6"
wasm-bindgen = "0.2"
wasm-bindgen-futures = "0.4"
console_error_panic_hook = "0.1"
web-sys = { version = "0.3", features = ["CanvasRenderingContext2d", "HtmlCanvasElement", "TextMetrics", "Window", "Request", "RequestInit", "RequestMode", "Response"] }
