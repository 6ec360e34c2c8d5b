[package]
name = "open_api_to_http"
version = "0.1.0"
edition = "2021"
publish = false

[dependencies]
serde = { version = "1", features = ["derive"] }
serde_json = "1"
exitcode = "1"
unwrap_or = "1"
