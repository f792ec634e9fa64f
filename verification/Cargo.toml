[package]
name = "kornia-warp"
version = "0.1.0"
edition = "2021"
publish = false

[dependencies]
bytemuck = { version = "1", features = ["extern_crate_alloc"] }
cubecl = { version = "0.5", default-features = false, features = ["std", "wgpu"] }
kornia-image = "0.1"
