[package]
name = "animlab_core"
version = "0.1.0"
edition = "2021"
publish = false

[dependencies]
geo = "=0.33.1"
lyon_tessellation = "=1.0.23"
bytemuck = { version = "=1.25.2", features = ["derive"] }
log = "=0.4.35"
wasm-bindgen = "=0.2.130"
wasm-bindgen-futures = "=0.4.80"
web-sys = { version = "=0.3.107", features = ["Window", "Document", "HtmlElement", "HtmlCanvasElement", "CssStyleDeclaration", "console"] }
console_log = "=1.1.0"
console_error_panic_hook = "=0.1.7"
wgpu = "=30.0.1"
