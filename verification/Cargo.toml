[package]
name = "turn_based_tactical"
version = "0.1.0"
edition = "2021"
publish = false

[dependencies]
bevy = { version = "=0.17.3", default-features = false, features = ["std", "multi_threaded", "bevy_log", "bevy_state", "bevy_window", "bevy_render", "bevy_core_pipeline", "bevy_sprite", "bevy_sprite_render", "bevy_ui", "bevy_ui_render", "bevy_text", "default_font", "bevy_picking", "bevy_mesh_picking_backend", "bevy_asset", "bevy_color", "bevy_mesh"] }
