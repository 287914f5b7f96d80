[package]
name = "habit_tracker"
version = "0.1.0"
edition = "2021"
publish = false

[dependencies]
chrono = "0.4"
ron = "0.8"
serde = { version = "1", features = ["derive"] }
