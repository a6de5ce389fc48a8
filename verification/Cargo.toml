[package]
name = "agent_bench"
version = "0.1.0"
edition = "2021"
publish = false

[dependencies]
anyhow = "1"
autoagents = { version = "*", features = ["openai"] }
autoagents-derive = "*"
futures = "0.3"
libc = "0.2"
rig-core = "0.31"
schemars = "1"
serde = { version = "1", features = ["derive"] }
serde_json = "1"
serde_yaml = "0.9"
thiserror = "2"
tokio = { version = "1", features = ["full"] }
