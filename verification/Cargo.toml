[package]
name = "slbl"
version = "0.1.0"
edition = "2021"
publish = false

[dependencies]
sha2 = "0.10"
pulldown-cmark = { version = "*", default-features = false, features = ["html"] }
anyhow = "1"
serde = { version = "1", features = ["derive"] }
serde_json = "1"
toml = "*"
syntect = { version = "5", default-features = false, features = ["default-fancy"] }
axum = "*"
tokio = { version = "1", features = ["macros", "rt-multi-thread", "net"] }
tower-http = { version = "*", features = ["fs"] }
