[package]
name = "game_server"
version = "0.1.0"
edition = "2021"
publish = false

[dependencies]
rand = "0.8"
serde = { version = "1", features = ["derive"] }
serde_json = "1"
axum = { version = "0.6", features = ["ws"] }
tokio = { version = "1", features = ["full"] }
futures = "0.3"
once_cell = "1"
tower-http = { version = "0.4", features = ["fs"] }
