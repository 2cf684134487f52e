[package]
name = "age_of_sail"
version = "0.1.0"
edition = "2021"
publish = false

[dependencies]
priority-queue = "2.7"
rand = "0.8"
serde = { version = "1", features = ["derive"] }
chrono = "0.4"
itertools = "0.10"
amethyst = { version = "0.15", default-features = false, features = ["renderer", "vulkan"] }
