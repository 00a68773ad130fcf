[package]
name = "ollama_intl"
version = "0.1.0"
edition = "2021"
publish = false

[dependencies]
serde = { version = "=1.0.229", features = ["derive"] }
serde_json = "=1.0.154"
serde_yaml = "=0.9.34"
formatjs_icu_messageformat_parser = "=2.0.0"
async-openai = { version = "=0.43.0", features = ["chat-completion"] }
clap = { version = "=4.6.7", features = ["derive"] }
indicatif = "=0.18.6"
tokio = { version = "=1.54.1", features = ["full"] }
