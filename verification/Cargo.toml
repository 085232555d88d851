[package]
name = "rowfont"
version = "0.1.0"
edition = "2021"
publish = false

[dependencies]
anyhow = "*"
clap = { version = "*", features = ["derive"] }
clap-num = "*"
image = { version = "*", default-features = false, features = ["png"] }
