[package]
name = "calculator"
version = "0.1.0"
edition = "2021"
publish = false

[dependencies]
anyhow = "=1.0.104"
iced = { version = "=0.13.1", default-features = false }
thiserror = "=2.0.21"

[dev-dependencies]
regex = "1"
