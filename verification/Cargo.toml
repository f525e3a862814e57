[package]
name = "wasm_ca"
version = "0.1.0"
edition = "2021"
publish = false

[dependencies]
itertools = "*"
wasm-bindgen = "0.2"
js-sys = "0.3"
web-sys = { version = "0.3", features = ["HtmlCanvasElement", "WebGl2RenderingContext", "WebGlProgram", "WebGlShader", "WebGlBuffer", "Window", "console"] }
rustysynth = "*"
tinyaudio = "*"
