[package]
name = "gearbox_editor"
version = "0.1.0"
edition = "2021"
publish = false

[dependencies]
disqualified = "1"
egui = "*"
bevy_ecs = "*"
serde = { version = "1", features = ["derive"] }
serde_json = "1"
