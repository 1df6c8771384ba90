[package]
name = "graph_revs_log_for_path"
version = "0.1.0"
edition = "2021"
publish = false

[dependencies]
anyhow = "1"
chrono = { version = "0.4", default-features = false, features = ["std"] }
clap = { version = "4", features = ["derive"] }
env_logger = "0.11"
human_bytes = "0.4"
log = "0.4"
