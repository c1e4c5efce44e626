[package]
name = "arrival_board"
version = "0.1.0"
edition = "2021"
publish = false

[dependencies]
chrono = "0.4"
serde = { version = "*", features = ["derive"] }
serde_json = "*"
eyre = "*"
tokio = { version = "*", features = ["macros", "rt-multi-thread", "net"] }
axum = "*"
reqwest = { version = "*", default-features = false }
skia-safe = "*"
