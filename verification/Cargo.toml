[package]
name = "minimax"
version = "0.1.0"
edition = "2021"
publish = false

[dependencies]
bevy = { version = "=0.9.1", default-features = false, features = ["bevy_asset", "bevy_core_pipeline", "bevy_render"] }
graphviz-rust = "=0.6.6"
itertools = "=0.10.5"
rand = "=0.8.8"
tracing = "=0.1.44"
tracing-subscriber = "=0.3.23"
