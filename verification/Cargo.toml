[package]
name = "debt_tracker"
version = "0.1.0"
edition = "2021"
publish = false

[dependencies]
chrono = "=0.4.45"
derive_more = "=0.99.20"
diesel = { version = "=1.4.8", features = ["sqlite"] }
dotenv = "=0.15.0"
log = "=0.4.34"
pretty_env_logger = "=0.4.0"
serde = { version = "=1.0.229", features = ["derive"] }
serde_json = "=1.0.154"
strum = { version = "=0.24.1", features = ["derive"] }
# teloxide-core needs takecell, and 0.1.2 of it asks for a newer compiler than this crate is built with
takecell = ">=0.1.0, <0.1.2"
teloxide = { version = "=0.10.1", features = ["macros"] }
tokio = { version = "=1.54.1", features = ["rt-multi-thread", "macros"] }
uuid = { version = "=1.29.0", features = ["v4"] }
