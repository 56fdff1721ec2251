[package]
name = "game_logic"
version = "0.1.0"
edition = "2021"
publish = false

[dependencies]
rand = "0.8"
bevy_time = "0.12"
bevy = { version = "0.12", default-features = false }
message-io = "*"
