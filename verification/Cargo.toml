[package]
name = "flowistry"
version = "0.1.0"
edition = "2021"
publish = false

[dependencies]
intervaltree = "0.2"
regex = "1"
serde = { version = "1", features = ["derive"] }
serde_json = "1"
anyhow = "1"
log = "0.4"
fluid-let = "1"
