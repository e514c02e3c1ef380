[package]
name = "rinha-2026"
version = "0.1.0"
edition = "2021"
publish = false

[dependencies]
bytemuck = { version = "1", features = ["derive", "extern_crate_alloc"] }
bytes = "1"
flate2 = "1"
http-body-util = "0.1"
hyper = { version = "1", features = ["server", "http1"] }
hyper-util = { version = "0.1", features = ["tokio"] }
memmap2 = "0.9"
rand = "0.8"
rayon = "1"
serde = { version = "1", features = ["derive"] }
serde_json = "1"
simd-json = "*"
tokio = { version = "1", features = ["rt", "net", "macros"] }
