[package]
name = "pi_ui_render"
version = "0.1.0"
edition = "2021"
publish = false

[dependencies]
bitvec = "=1.1.1"
pi_null = "=0.2.2"
bevy_ecs = { version = "0.12", default-features = false }
bevy_app = { version = "0.12", default-features = false }
nalgebra = "0.32"
pi_flex_layout = "*"
