[package]
name = "ais_analytics"
version = "0.1.26"
edition = "2021"
publish = false

[dependencies]
chrono = "=0.4.45"
serde = { version = "=1.0.229", features = ["derive"] }
serde_json = "=1.0.154"
dirs = "6"
arboard = { version = "3", default-features = false }
azure_core = "=1.1.0"
azure_identity = "=1.0.0"
dark-light = "2"
dioxus = { version = "0.7", default-features = false, features = ["macro", "html", "hooks", "signals", "document"] }
image = { version = "0.25", default-features = false, features = ["png"] }
reqwest = { version = "0.12", default-features = false, features = ["json"] }
tokio = { version = "1", features = ["time", "rt"] }
