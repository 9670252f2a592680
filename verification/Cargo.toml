[package]
name = "minesweep_core"
version = "0.1.0"
edition = "2021"
publish = false

[dependencies]
console_error_panic_hook = "=0.1.7"
futures = "=0.3.34"
gloo-worker = { version = "=0.5.0", features = ["futures"] }
itertools = "=0.15.0"
js-sys = "=0.3.106"
leptos = { version = "=0.6.15", features = ["csr"] }
leptos-use = "0.13"
leptos_meta = { version = "=0.6.15", features = ["csr"] }
rand = "=0.8.8"
rand_chacha = "=0.3.1"
serde = { version = "=1.0.229", features = ["derive"] }
splr = "=0.17.2"
varisat = "=0.2.2"
wasm-bindgen = "=0.2.129"
web-sys = { version = "=0.3.106", features = ["CanvasRenderingContext2d", "HtmlDivElement", "HtmlImageElement", "Performance", "WorkerGlobalScope"] }
