[package]
name = "interpreter"
version = "0.1.0"
edition = "2021"
publish = false

[dependencies]
anyhow = "1"
clap = { version = "4", features = ["derive", "env"] }
cursive = { version = "0.21", default-features = false, features = ["crossterm-backend"] }
directories = "5"
llm = { version = "=1.3.8", default-features = false, features = ["openai", "anthropic", "ollama"] }
serde = { version = "1", features = ["derive"] }
serde_json = "1"
tokio = { version = "1", features = ["macros", "rt-multi-thread"] }
tracing-subscriber = { version = "0.3", features = ["env-filter"] }
ureq = { version = "2.12", features = ["json"] }
