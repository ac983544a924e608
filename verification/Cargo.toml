[package]
name = "hap_wasm"
version = "0.1.0"
edition = "2021"
publish = false

[dependencies]
byteorder = "=1.5.0"
hap-parser = "=0.1.0"
wasm-bindgen = "=0.2.130"
js-sys = "=0.3.107"
web-sys = { version = "=0.3.107", features = ["console", "HtmlCanvasElement", "WebGl2RenderingContext", "WebGlTexture"] }
console_error_panic_hook = "=0.1.7"
anyhow = "=1.0.104"
clap = { version = "=4.6.7", features = ["derive"] }
indicatif = "=0.17.11"
