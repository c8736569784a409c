[package]
name = "rhai_mode"
version = "0.1.0"
edition = "2021"
publish = false

[dependencies]
console_error_panic_hook = "0.1"
instant = { version = "0.1", features = ["wasm-bindgen"] }
js-sys = "0.3"
rhai = { version = "1", features = ["internals"] }
serde = { version = "1", features = ["derive"] }
wasm-bindgen = { version = "0.2", features = ["serde-serialize"] }
web-sys = { version = "0.3", features = ["console"] }
wee_alloc = "0.4"
