[package]
name = "faf_text"
version = "0.1.0"
edition = "2021"
publish = false

[dependencies]
bytemuck = { version = "1", features = ["derive"] }
console_error_panic_hook = "0.1"
cosmic-text = "*"
etagere = "*"
glam = "*"
half = "2"
rustc-hash = "2"
serde_json = "1"
swash = "*"
ttf-parser = "*"
unicode-segmentation = "1"
wasm-bindgen = "0.2"
web-sys = { version = "0.3", features = ["HtmlCanvasElement", "Performance", "Window"] }
wgpu = "*"
