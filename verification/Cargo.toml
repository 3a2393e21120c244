[package]
name = "string_art"
version = "0.1.0"
edition = "2021"
publish = false

[dependencies]
line_drawing = "*"
wasm-bindgen = "*"
js-sys = "*"
web-sys = { version = "*", features = ["console", "Window", "Document", "Element", "HtmlCanvasElement", "CanvasRenderingContext2d"] }
