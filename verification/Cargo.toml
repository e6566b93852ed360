[package]
name = "ai_agents"
version = "0.1.0"
edition = "2021"
publish = false

[dependencies]
streaming-iterator = "0.1"
rand = "0.8"
num = "*"
