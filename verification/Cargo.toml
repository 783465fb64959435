[package]
name = "keycrack"
version = "0.1.0"
edition = "2021"
publish = false

[dependencies]
md-5 = "*"
sha2 = "*"
hex = "*"
rayon = "*"
clap = { version = "*", features = ["derive"] }
indicatif = "*"
