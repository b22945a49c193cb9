[package]
name = "ghx_proc_gen"
version = "0.1.0"
edition = "2021"
publish = false

[dependencies]
ndarray = "0.15"
bevy = { version = "0.12", default-features = false }
