[package]
name = "tsugiki"
version = "0.1.0"
edition = "2021"
publish = false

[dependencies]
markdown = "1.0.0-alpha.21"
unicode-segmentation = "1"
uuid = { version = "1", features = ["v4", "v5"] }
regex = "1"
clap = { version = "4", features = ["derive"] }
