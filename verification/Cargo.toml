[package]
name = "gopro_importer"
version = "0.1.0"
edition = "2021"
publish = false

[dependencies]
chrono = "*"
clap = { version = "*", features = ["derive"] }
crossterm = "0.25"
directories = "*"
mpvipc = "*"
rff = "*"
serde = { version = "*", features = ["derive"] }
serde_json = "*"
tui = "0.19"
uuid = { version = "*", features = ["v4", "serde"] }
walkdir = "*"
