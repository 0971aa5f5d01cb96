[package]
name = "game2048"
version = "0.1.0"
edition = "2021"
publish = false

[dependencies]
bevy = { version = "0.13", default-features = false }
bevy_prng = { version = "0.5", features = ["wyrand"] }
bevy_rand = "0.5"
itertools = "0.12"
rand_core = "0.6"
strum = "0.26"
strum_macros = "0.26"
