[package]
name = "zubolite"
version = "0.1.0"
edition = "2021"
publish = false

[dependencies]
urlencoding = "2"
actix-web = "4"
askama = "0.12"
r2d2 = "0.8"
r2d2_sqlite = "0.24"
rusqlite = { version = "0.31", features = ["bundled"] }
serde = { version = "1", features = ["derive"] }
thiserror = "1"

[dev-dependencies]
regex = "1"
