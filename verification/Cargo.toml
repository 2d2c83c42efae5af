[package]
name = "matchkit"
version = "0.1.0"
edition = "2021"
publish = false

[dependencies]
async-trait = "0.1"
bytemuck = { version = "1", features = ["derive"] }
thiserror = "2"

[dev-dependencies]
futures = "0.3"
