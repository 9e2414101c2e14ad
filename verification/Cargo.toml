[package]
name = "tricti"
version = "0.1.0"
edition = "2021"
publish = false

[dependencies]
clap = { version = "4", features = ["derive"] }
serde = { version = "1", features = ["derive"] }
toml = "0.8"
libloading = "0.8"
libc = "0.2"
pest = "2"
pest_derive = "2"
