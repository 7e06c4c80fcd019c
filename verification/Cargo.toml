[package]
name = "game_support"
version = "0.1.0"
edition = "2021"
publish = false

[dependencies]
bevy = { version = "=0.16.1", default-features = false }
rand = "0.8"
rand_pcg = "0.3"
