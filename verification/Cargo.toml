[package]
name = "stardust"
version = "0.1.0"
edition = "2021"

[dependencies]
serde_json = "=1.0.154"
rtrb = "=0.3.6"
serde = { version = "=1.0.229", features = ["derive"] }
thiserror = "=2.0.21"
anyhow = "=1.0.104"
tracing = "=0.1.44"
hound = "=3.5.1"
midir = "=0.10.4"
cpal = "=0.17.1"
clack-host = "=0.2.0"
clack-plugin = "=0.2.0"
clack-extensions = { version = "=0.2.0", features = ["audio-ports", "note-ports", "clack-plugin"] }
