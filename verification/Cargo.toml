[package]
name = "shortie"
version = "0.1.0"
edition = "2021"
publish = false

[dependencies]
chrono = "0.4"
clap = { version = "4", features = ["derive"] }
dirs = "*"
enigo = "*"
rdev = "*"
serde = { version = "1", features = ["derive"] }
serde-saphyr = "*"
thiserror = "2"
