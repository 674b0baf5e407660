[package]
name = "sycamore_futures"
version = "0.1.0"
edition = "2021"
publish = false

[dependencies]
futures = "0.3"
tokio = { version = "1", features = ["rt"] }
wasm-bindgen-futures = "0.4"
