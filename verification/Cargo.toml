[package]
name = "pingmon"
version = "0.1.0"
edition = "2021"
publish = false

[dependencies]
clap = { version = "*", features = ["derive"] }
surge-ping = "*"
tokio = { version = "*", features = ["macros", "rt-multi-thread", "time"] }

[dev-dependencies]
serde_json = "*"
