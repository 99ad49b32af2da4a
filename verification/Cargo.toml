[package]
name = "timelapse"
version = "0.1.0"
edition = "2021"
publish = false

[dependencies]
chrono = "*"
maud = "*"
poem = "*"
serde = { version = "*", features = ["derive"] }
tempfile = "*"
tokio = { version = "*", features = ["macros", "rt-multi-thread"] }
zip = { version = "*", default-features = false }
