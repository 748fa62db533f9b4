[package]
name = "diagram_tool"
version = "0.1.0"
edition = "2021"
publish = false

[dependencies]
im = "15"
serde = { version = "1", features = ["derive"] }
serde_json = "1"
thiserror = "1"
anyhow = "1"
json-patch = "*"
notify = "*"
sqlx = { version = "0.8", default-features = false, features = ["sqlite", "runtime-tokio"] }
tokio = { version = "1", features = ["rt", "macros", "time"] }

[dev-dependencies]
