[package]
name = "git_ai"
version = "0.1.0"
edition = "2021"
publish = false

[dependencies]
similar = "2"
sha2 = "0.10"
chrono = { version = "0.4", default-features = false, features = ["std"] }
serde = { version = "1", features = ["derive"] }
serde_json = "1"
clap = { version = "4", features = ["derive"] }
libc = "0.2"
