[package]
name = "unit-forge-lib"
version = "0.1.0"
edition = "2021"
publish = false

[dependencies]
color-eyre = "=0.6.5"
serde = { version = "=1.0.229", features = ["derive"] }
thiserror = "=2.0.21"
toml = { version = "=1.1.8", features = ["preserve_order"] }

[dev-dependencies]
chumsky = "=0.13.0"
