[package]
name = "event_stages"
version = "0.1.0"
edition = "2021"
publish = false

[dependencies]
bytes = "1"
regex = "1"
serde = { version = "1", features = ["derive"] }
serde_json = "1"
string_cache = "*"
tracing = "0.1"
typetag = "*"
