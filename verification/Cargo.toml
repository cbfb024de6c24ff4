[package]
name = "wordle"
version = "0.1.0"
edition = "2021"
publish = false

[dependencies]
priority-queue = "*"
clap = { version = "*", features = ["derive"] }
serde = { version = "*", features = ["derive"] }
serde_json = "*"
config = { version = "*", default-features = false, features = ["json"] }
colored = "*"
atty = "*"
rand = "*"
