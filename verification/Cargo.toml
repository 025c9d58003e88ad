[package]
name = "rippy"
version = "0.1.0"
edition = "2021"
publish = false

[dependencies]
chrono = { version = "=0.4.45", default-features = false, features = ["std"] }
clap = "=4.6.7"
ignore = "=0.4.33"
is_executable = "=1.0.6"
jwalk = "=0.8.1"
regex = "=1.13.1"
serde = { version = "=1.0.229", features = ["derive"] }
serde_json = "=1.0.154"
