[package]
name = "sync_store"
version = "0.1.0"
edition = "2021"
publish = false

[dependencies]
sqlx = { version = "*", default-features = false, features = ["sqlite", "runtime-tokio"] }
tokio = { version = "*", features = ["rt-multi-thread", "macros"] }
clap = { version = "*", features = ["derive"] }
serde = { version = "*", features = ["derive"] }
time = "*"
url = "*"
eyre = "*"
tracing = "*"
tracing-subscriber = { version = "*", features = ["env-filter"] }
metrics = "*"
async-trait = "*"
