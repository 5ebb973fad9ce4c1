[package]
name = "graco"
version = "0.1.0"
edition = "2021"
publish = false

[dependencies]
petgraph = "=0.6.5"
shlex = "=1.3.0"
anyhow = "=1.0.104"
async-trait = "=0.1.92"
cfg-if = "=1.0.5"
clap = { version = "=4.6.7", features = ["derive"] }
env_logger = "=0.10.2"
futures = "=0.3.34"
log = "=0.4.34"
tokio = { version = "=1.54.1", features = ["macros", "rt-multi-thread"] }
serde_json = "1"
