[package]
name = "bevy_inochi2d"
version = "0.3.0"
edition = "2021"
publish = false

[dependencies]
bevy = { version = "=0.19.1", default-features = false, features = ["std", "bevy_asset", "bevy_render", "bevy_core_pipeline", "bevy_sprite_render", "bevy_log"] }
bytemuck = { version = "=1.25.2", features = ["extern_crate_alloc"] }
i_overlay = "=6.0.1"
i_triangle = "=0.45.2"
inochi2d-parser = { version = "=0.2.3", features = ["inr", "inr-export"] }
json = "=0.12.4"
serde = { version = "=1.0.229", features = ["derive"] }
serde_json = "=1.0.154"
thiserror = "=2.0.21"
