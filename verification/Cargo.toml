[package]
name = "taskai"
version = "0.1.0"
edition = "2021"
publish = false

[dependencies]
serde_yaml = "*"
clap = { version = "*", features = ["derive"] }
tokio = { version = "*", features = ["macros", "rt-multi-thread"] }
llm = { version = "*", default-features = false, features = ["openai"] }
