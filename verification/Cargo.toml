[package]
name = "pretext"
version = "0.2.0"
edition = "2021"
publish = false

[dependencies]
unicode-segmentation = "1"
unicode-bidi = "0.3"
serde_json = "1"
skrifa = "*"
wasm-bindgen = "0.2"
js-sys = "0.3"
web-sys = { version = "0.3", features = ["CanvasRenderingContext2d", "HtmlCanvasElement", "OffscreenCanvas", "OffscreenCanvasRenderingContext2d", "TextMetrics", "Window", "Document", "Element", "Node", "EventTarget", "HtmlElement"] }

[dev-dependencies]
font-test-data = "*"
