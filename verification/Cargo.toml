[package]
name = "still_core"
version = "0.1.0"
edition = "2021"
publish = false

[dependencies]
md-5 = "0.10"
serde = { version = "1", features = ["derive"] }
serde_json = "1"
lofty = "*"
symphonia = { version = "0.5", features = ["all"] }
