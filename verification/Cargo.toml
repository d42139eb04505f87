[package]
name = "vector_emancipation"
version = "0.1.0"
edition = "2021"
publish = false

[dependencies]
bevy = { version = "=0.19.1", default-features = false, features = [
    "std", "bevy_asset", "bevy_camera", "bevy_color", "bevy_core_pipeline", "bevy_log",
    "bevy_mesh", "bevy_picking", "bevy_render", "bevy_sprite", "bevy_sprite_render", "bevy_state", "bevy_text",
    "bevy_ui", "bevy_ui_render", "bevy_window", "default_font", "mesh_picking",
] }
