[package]
name = "rss_notify"
version = "0.1.0"
edition = "2021"
publish = false

[dependencies]
chrono = "*"
croner = "*"
rss = "*"
reqwest = { version = "*", default-features = false }
tokio = { version = "*", features = ["macros", "rt-multi-thread"] }
notify-rust = "*"
open = "*"
directories = "*"
serde = { version = "*", features = ["derive"] }
toml = "*"
