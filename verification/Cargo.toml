[package]
name = "org_gh"
version = "0.1.0"
edition = "2021"
publish = false

[dependencies]
sha2 = "=0.11.0"
chrono = "=0.4.45"
clap = { version = "=4.6.7", features = ["derive"] }
directories = "=6.0.0"
octocrab = "=0.47.1"
orgize = "=0.9.0"
serde = { version = "=1.0.229", features = ["derive"] }
serde_json = "=1.0.151"
thiserror = "=2.0.21"
tokio = { version = "=1.53.2", features = ["macros", "rt-multi-thread"] }
toml = "=1.1.7"
