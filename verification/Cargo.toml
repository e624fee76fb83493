[package]
name = "recipe_reduce"
version = "0.1.0"
edition = "2021"
publish = false

[dependencies]
toml_edit = "=0.25.16+spec-1.1.0"
serde_json = "=1.0.151"
anyhow = "=1.0.104"
