[package]
name = "snouty"
version = "0.1.0"
edition = "2021"
publish = false

[dependencies]
json5 = "*"
serde_json = "*"
clap = { version = "*", features = ["derive"] }
clap_complete = "*"
chrono = "*"
env_logger = "*"
log = "*"
tokio = { version = "*", features = ["macros", "rt"] }
