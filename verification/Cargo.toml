[package]
name = "cog_engine"
version = "0.1.0"
edition = "2021"
publish = false

[dependencies]
bytes = "1"
futures = "0.3"
async-trait = "0.1"
async-tiff = "*"
serde_json = "1"
wkt = "*"
geo-types = "*"
object_store = "*"
tokio = { version = "1", features = ["rt-multi-thread"] }
url = "2"
reqwest = { version = "*", default-features = false, features = ["json"] }
duckdb = { version = "*", features = ["vtab-loadable", "vscalar", "loadable-extension"] }
wasm-bindgen = "0.2"
wasm-bindgen-futures = "0.4"
js-sys = "0.3"
web-sys = { version = "0.3", features = ["Request", "Response", "Window", "Headers"] }
console_error_panic_hook = "0.1"
