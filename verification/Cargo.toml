[package]
name = "caltrack"
version = "0.1.0"
edition = "2021"
publish = false

[dependencies]
r2d2_sqlite = { version = "*", features = ["bundled"] }
r2d2 = "*"
fuzzy-matcher = "0.3"
axum = "0.6"
tokio = { version = "1", features = ["macros", "rt-multi-thread"] }
serde = { version = "1", features = ["derive"] }
chrono = "0.4"
tracing = "0.1"
tracing-subscriber = "0.3"
