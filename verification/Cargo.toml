[package]
name = "mdlive"
version = "2.0.0"
edition = "2021"
publish = false

[dependencies]
anyhow = "1"
axum = { version = "0.7", features = ["ws"] }
clap = { version = "4", features = ["derive"] }
dirs = "5"
futures-util = { version = "0.3", features = ["sink"] }
markdown = "1.0.0-alpha.16"
minijinja = "2"
notify = "6"
serde = { version = "1", features = ["derive"] }
serde_json = "1"
tokio = { version = "1", features = ["full"] }
toml = "0.8"
tower-http = { version = "0.5", features = ["cors"] }
