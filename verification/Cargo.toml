[package]
name = "desktop_organizer"
version = "1.1.3"
edition = "2021"
publish = false

[dependencies]
base64 = "0.22"
png = "0.17"
serde = { version = "1", features = ["derive"] }
serde_json = "1"
sha2 = "0.10"
uuid = { version = "1", features = ["v4"] }
