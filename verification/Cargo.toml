[package]
name = "pnyx_transp2p"
version = "0.1.0"
edition = "2021"
publish = false

[dependencies]
lru = "=0.19.0"
parity-scale-codec = { version = "=3.7.5", features = ["derive"] }
futures = "=0.3.34"
futures-timer = "=3.0.4"
log = "=0.4.35"
bytes = "=1.12.1"
wasm-timer = "=0.2.5"
libp2p = { version = "=0.56.0", default-features = false }
sp-core = { version = "*", default-features = false }
