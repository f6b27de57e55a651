[package]
name = "osm_to_route_snapper"
version = "0.1.0"
edition = "2021"
publish = false

[dependencies]
anyhow = "1"
bincode = "1"
console_error_panic_hook = "0.1"
console_log = "1"
geo = "0.28"
log = "0.4"
serde = { version = "1", features = ["derive"] }
wasm-bindgen = "0.2"
