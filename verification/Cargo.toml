[package]
name = "y10n"
version = "0.1.0"
edition = "2021"
publish = false

[dependencies]
glob = "*"
serde_yaml = "*"
handlebars = "*"
