[package]
name = "repeat_core"
version = "0.1.0"
edition = "2021"
publish = false

[dependencies]
anyhow = "*"
chrono = "*"
clap = { version = "*", features = ["derive"] }
directories = "*"
futures = "*"
sqlx = { version = "*", default-features = false, features = ["sqlite", "runtime-tokio"] }
