[package]
name = "logsearch"
version = "0.1.0"
edition = "2021"
publish = false

[dependencies]
chrono = { version = "=0.4.45", features = ["serde"] }
chrono-tz = "=0.10.4"
unic-ucd-category = "=0.9.0"
tokio = { version = "1", features = ["rt-multi-thread", "macros", "sync"] }
warp = "0.3"
sqlx = { version = "=0.6.3", features = ["runtime-tokio-rustls", "postgres", "chrono"] }
reqwest = { version = "0.11", default-features = false }
serde = { version = "1", features = ["derive"] }
serde_json = "1"
toml = "*"
anyhow = "1"
handlebars = "4"
once_cell = "1"
