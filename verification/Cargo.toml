[package]
name = "gridist"
version = "0.1.0"
edition = "2021"
publish = false

[dependencies]
docopt = "1"
rand = "0.4"
serde = { version = "1", features = ["derive"] }
serde_derive = "1"
