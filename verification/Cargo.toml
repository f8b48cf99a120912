[package]
name = "toshokan"
version = "0.1.0"
edition = "2021"
publish = false

[dependencies]
unicode-normalization = "*"
unicode-canonical-combining-class = "*"
anyhow = "*"
axum = "*"
axum-extra = { version = "*", features = ["cookie"] }
tokio = { version = "*", features = ["rt-multi-thread", "net", "macros"] }
sled = "*"
minijinja = { version = "*", features = ["loader"] }
serde = { version = "*", features = ["derive"] }
uuid = { version = "*", features = ["v7", "serde"] }
chrono = { version = "*", features = ["serde"] }
bincode = { version = "*", features = ["serde", "derive"] }
base64 = "*"
toml = "*"
tracing-subscriber = "*"
rand = "*"
once_cell = "*"
