[package]
name = "skill-shelf"
version = "0.1.0"
edition = "2021"
publish = false

[dependencies]
anyhow = "1"
clap = { version = "4", features = ["derive"] }
fs2 = "0.4"
serde = { version = "1", features = ["derive"] }
serde_json = "1"
serde_yaml = "0.9"
sysinfo = "0.30"
tokio = { version = "1", features = ["sync", "rt", "rt-multi-thread", "macros", "time"] }

[dev-dependencies]
tempfile = "3"
