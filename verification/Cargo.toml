[package]
name = "vibes"
version = "0.1.0"
edition = "2021"
publish = false

[dependencies]
prost = "0.13"
tonic = "0.12"
tokio = { version = "1", features = ["macros", "rt-multi-thread", "net", "sync"] }
tokio-stream = { version = "0.1", features = ["net"] }
poem = "3"
poem-openapi = { version = "5", features = ["swagger-ui"] }
serde = { version = "1", features = ["derive"] }
