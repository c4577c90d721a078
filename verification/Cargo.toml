[package]
name = "classga"
version = "0.1.0"
edition = "2021"
publish = false

[dependencies]
rand = "0.8"
uuid = { version = "1", features = ["v4", "serde"] }
serde = { version = "1", features = ["derive"] }
axum = "0.7"
tokio = { version = "1", features = ["macros", "rt-multi-thread", "net"] }
rusqlite = { version = "0.31", features = ["bundled"] }
leptos = { version = "*", features = ["ssr"] }
