[package]
name = "scholarsync"
version = "0.1.0"
edition = "2021"
publish = false

[dependencies]
actix-web = "=4.15.0"
async-openai = { version = "=0.42.1", features = ["chat-completion"] }
serde = { version = "=1.0.229", features = ["derive"] }
serde_json = "=1.0.151"
