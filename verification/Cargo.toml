[package]
name = "multissh"
version = "0.1.0"
edition = "2021"
publish = false

[dependencies]
anyhow = "1"
async-trait = "0.1"
clap = { version = "4", features = ["derive"] }
console = "0.15"
dirs = "5"
emojis = "0.6"
env_logger = "0.11"
futures = "0.3"
log = "0.4"
russh = "0.44"
russh-keys = "0.44"
serde = { version = "1", features = ["derive"] }
serde_json = "1"
tabled = "0.15"
thiserror = "1"
tokio = { version = "1", features = ["macros", "rt-multi-thread", "time"] }
