[package]
name = "kymux"
version = "0.1.0"
edition = "2021"
publish = false

[dependencies]
byteorder = "1"
bytes = "1"
raptorq = "1"
async-trait = "0.1"
env_logger = "0.11"
js-sys = "0.3"
log = "0.4"
quinn = "0.11"
rmp-serde = "1"
rustls = { version = "0.23", default-features = false, features = ["ring", "std"] }
rustls-native-certs = "0.8"
rustls-pemfile = "2"
serde = { version = "1", features = ["derive"] }
thiserror = "1"
tokio = { version = "1", features = ["full"] }
wasm-bindgen = "0.2"
wasm-bindgen-futures = "0.4"
wasmtimer = "0.4"
web-sys = "0.3"
wtransport = "0.6"
wtransport-proto = "0.6"
