[package]
name = "homepage_core"
version = "0.1.0"
edition = "2021"
publish = false

[dependencies]
rand = "0.8"
leptos = { version = "0.6", features = ["csr"] }
leptos_router = { version = "0.6", features = ["csr"] }
reqwest = { version = "0.11", default-features = false }
serde = { version = "1", features = ["derive"] }
serde_json = "1"
chrono = { version = "0.4", features = ["serde"] }
plotters = { version = "0.3", default-features = false, features = ["line_series"] }
plotters-canvas = "0.3"
console_error_panic_hook = "0.1"
