[package]
name = "pg_wodekit"
version = "0.1.0"
edition = "2021"
publish = false

[dependencies]
pgrx = { version = "=0.16.1", features = ["pg16"] }
serde = { version = "1", features = ["derive"] }
serde_json = "1"
