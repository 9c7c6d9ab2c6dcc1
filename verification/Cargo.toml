[package]
name = "fang"
version = "0.1.0"
edition = "2021"
publish = false

[dependencies]
anyhow = "1"
binrw = "0.10"
chrono = { version = "0.4", default-features = false, features = ["clock", "std"] }
clap = { version = "3", features = ["derive"] }
interoptopus = "0.14"
interoptopus_backend_c = "0.14"
interoptopus_backend_cpython = "0.14"
