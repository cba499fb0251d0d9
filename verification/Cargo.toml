[package]
name = "comfy_wars"
version = "0.1.0"
edition = "2021"
publish = false

[dependencies]
slotmap = "=1.1.1"
macroquad = "=0.4.16"
miniquad = "=0.4.11"
egui = "=0.31.1"
egui-miniquad = "=0.16.0"
cosync = "=0.3.0"
anyhow = "=1.0.104"
nanoserde = "=0.2.1"
serde = { version = "=1.0.229", features = ["derive"] }
tween = "=2.2.0"
derive_more = { version = "=2.1.1", features = ["full"] }
itertools = "=0.15.0"
inline_tweak = "=1.2.5"
atomic_refcell = "=0.1.14"
