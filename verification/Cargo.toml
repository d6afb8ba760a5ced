[package]
name = "harvest"
version = "1.0.0"
edition = "2021"
publish = false

[dependencies]
clap = { version = "=4.6.7", features = ["derive"] }
reqwest = { version = "=0.11.27", features = ["blocking"] }
select = "=0.6.1"
unicode-normalization = "=0.1.26"

[dev-dependencies]
regex = "=1.13.1"
