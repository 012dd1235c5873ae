[package]
name = "hephae"
version = "0.1.0"
edition = "2021"
publish = false

[dependencies]
guillotiere = "=0.6.2"
bevy_platform = "=0.16.1"
serde = { version = "=1.0.229", features = ["derive"] }
ron = "=0.8.1"
toml_edit = "=0.22.27"
syn = { version = "=2.0.119", features = ["full"] }
quote = "=1.0.47"
proc-macro2 = "=1.0.107"
fixedbitset = "0.5"
